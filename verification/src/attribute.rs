//! Vertex attribute descriptors: the element counts and byte sizes a
//! renderer needs to lay out vertex buffers. Pure data; no graphics API is
//! touched here.
use vstd::prelude::*;

verus! {

/// The order of vertex attributes in a buffer.
pub struct FormatDescriptor {
    pub attributes: Vec<AttributeDescriptor>,
}

/// One vertex attribute: its shader index and its element type.
#[derive(Clone, Copy, Debug)]
pub struct AttributeDescriptor {
    pub index: u32,
    pub attribute_type: AttributeType,
}

impl AttributeDescriptor {
    pub fn new(index: u32, attribute_type: AttributeType) -> (r: AttributeDescriptor)
        ensures
            r.index == index,
            r.attribute_type == attribute_type,
    {
        AttributeDescriptor { index, attribute_type }
    }
}

/// An attribute's element type together with how many elements it has.
#[derive(Clone, Copy, Debug, PartialEq, Eq, Structural)]
pub enum AttributeType {
    Float(u8),
    Double(u8),
    Byte(u8),
    UnsignedByte(u8),
    Short(u8),
    UnsignedShort(u8),
    Int(u8),
    UnsignedInt(u8),
}

/// How many elements an attribute has.
pub open spec fn spec_amount(t: AttributeType) -> u8 {
    match t {
        AttributeType::Float(amount) => amount,
        AttributeType::Double(amount) => amount,
        AttributeType::Byte(amount) => amount,
        AttributeType::UnsignedByte(amount) => amount,
        AttributeType::Short(amount) => amount,
        AttributeType::UnsignedShort(amount) => amount,
        AttributeType::Int(amount) => amount,
        AttributeType::UnsignedInt(amount) => amount,
    }
}

/// The byte size of one element of an attribute.
pub open spec fn spec_element_size(t: AttributeType) -> usize {
    match t {
        AttributeType::Float(_) => 4,
        AttributeType::Double(_) => 8,
        AttributeType::Byte(_) => 1,
        AttributeType::UnsignedByte(_) => 1,
        AttributeType::Short(_) => 2,
        AttributeType::UnsignedShort(_) => 2,
        AttributeType::Int(_) => 4,
        AttributeType::UnsignedInt(_) => 4,
    }
}

impl AttributeType {
    /// The attribute's total byte size: element size times element count.
    pub fn get_size(&self) -> (r: usize)
        ensures
            r == spec_element_size(*self) * spec_amount(*self),
    {
        match self {
            AttributeType::Float(amount) => 4 * (*amount as usize),
            AttributeType::Double(amount) => 8 * (*amount as usize),
            AttributeType::Byte(amount) => 1 * (*amount as usize),
            AttributeType::UnsignedByte(amount) => 1 * (*amount as usize),
            AttributeType::Short(amount) => 2 * (*amount as usize),
            AttributeType::UnsignedShort(amount) => 2 * (*amount as usize),
            AttributeType::Int(amount) => 4 * (*amount as usize),
            AttributeType::UnsignedInt(amount) => 4 * (*amount as usize),
        }
    }

    /// The attribute's element count.
    pub fn get_amount(&self) -> (r: u8)
        ensures
            r == spec_amount(*self),
    {
        match self {
            AttributeType::Float(amount) => *amount,
            AttributeType::Double(amount) => *amount,
            AttributeType::Byte(amount) => *amount,
            AttributeType::UnsignedByte(amount) => *amount,
            AttributeType::Short(amount) => *amount,
            AttributeType::UnsignedShort(amount) => *amount,
            AttributeType::Int(amount) => *amount,
            AttributeType::UnsignedInt(amount) => *amount,
        }
    }
}

} // verus!
