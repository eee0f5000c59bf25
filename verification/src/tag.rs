//! String tags: the authoring-time names content is registered under before
//! a reload assigns dense numeric identifiers.
use vstd::prelude::*;
use vstd::string::StrSliceExecFns;

verus! {

/// Why a tag string could not be parsed.
#[derive(Clone, Copy, Debug, PartialEq, Eq, Structural)]
pub enum TagError {
    /// The `:` between the mod id and the object id is missing.
    MissingDelimiter,
}

/// A `mod_id:object_id` content name.
#[derive(Clone, Debug, PartialEq, Eq, Hash)]
pub struct Tag(pub String, pub String);

/// `i` is the first colon of `s`.
pub open spec fn colon_at(s: Seq<char>, i: int) -> bool {
    &&& 0 <= i < s.len()
    &&& s[i] == ':'
    &&& forall|k: int| 0 <= k < i ==> s[k] != ':'
}

impl Tag {
    pub fn new(mod_id: String, string: String) -> (r: Tag)
        ensures
            r.0@ == mod_id@,
            r.1@ == string@,
    {
        Tag(mod_id, string)
    }

    /// Splits `mod_id:object_id` at the first colon; everything before it is
    /// the mod id, everything after it the object id. Fails exactly when the
    /// string holds no colon.
    pub fn parse(string: &str) -> (r: Result<Tag, TagError>)
        ensures
            r is Ok <==> string@.contains(':'),
            r matches Ok(t) ==> exists|i: int|
                {
                    &&& #[trigger] colon_at(string@, i)
                    &&& t.0@ == string@.subrange(0, i)
                    &&& t.1@ == string@.subrange(i + 1, string@.len() as int)
                },
            r matches Err(e) ==> e == TagError::MissingDelimiter,
    {
        let n = string.unicode_len();
        let mut i: usize = 0;
        while i < n
            invariant
                i <= n,
                n == string@.len(),
                forall|k: int| 0 <= k < i ==> string@[k] != ':',
            decreases n - i,
        {
            if string.get_char(i) == ':' {
                let mod_id = string.substring_char(0, i).to_owned();
                let obj_id = string.substring_char(i + 1, n).to_owned();
                proof {
                    assert(colon_at(string@, i as int));
                    assert(string@.contains(':'));
                }
                return Ok(Tag(mod_id, obj_id));
            }
            i = i + 1;
        }
        proof {
            if string@.contains(':') {
                let k = choose|k: int| 0 <= k < string@.len() && string@[k] == ':';
                assert(string@[k] != ':');
            }
        }
        Err(TagError::MissingDelimiter)
    }
}

/// A key into the translation tables; resolution itself lives with the asset
/// pipeline.
#[derive(Clone, Debug)]
pub struct LanguageKey {
    pub key: String,
}

/// A `(mod id, path)` pointer to an asset published by a mod.
#[derive(Clone, Debug)]
pub struct AssetLocation(pub String, pub String);

} // verus!
