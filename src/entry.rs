use vstd::prelude::*;

verus! {

/// The 64-bit digest of a key, as computed by std's default hasher.
pub uninterp spec fn key_digest(k: Seq<char>) -> u64;

/// Relies on `BuildHasher::hash_one` with a `BuildHasherDefault<DefaultHasher>`:
/// every `DefaultHasher` built by `new`/`default` starts from the same fixed
/// keys, so the digest depends on the characters of the key alone.
#[verifier::external_body]
fn digest_of(s: &str) -> (r: u64)
    ensures
        r == key_digest(s@),
{
    std::hash::BuildHasher::hash_one(
        &std::hash::BuildHasherDefault::<std::collections::hash_map::DefaultHasher>::default(),
        s,
    )
}

/// An immutable entry of the table; equality and hashing go by its key.
#[derive(Debug, Clone)]
pub struct Node {
    data: String,
}

impl View for Node {
    type V = Seq<char>;

    closed spec fn view(&self) -> Seq<char> {
        self.data@
    }
}

impl Node {
    /// Makes an entry holding the given key.
    pub fn new(data: String) -> (r: Node)
        ensures
            r@ == data@,
    {
        Node { data }
    }

    /// The key of this entry.
    pub fn key(&self) -> (r: &str)
        ensures
            r@ == self@,
    {
        self.data.as_str()
    }

    /// The digest of this entry's key.
    pub fn hash(&self) -> (r: u64)
        ensures
            r == key_digest(self@),
    {
        digest_of(self.data.as_str())
    }

    /// Whether two entries have the same key.
    pub fn same_key(&self, other: &Node) -> (r: bool)
        ensures
            r == (self@ == other@),
    {
        self.data == other.data
    }
}

/// The status of one bucket: never used, holding a live entry, or a tombstone.
#[derive(Debug)]
pub enum Slot {
    Empty,
    Occupied(Node),
    Deleted,
}

} // verus!
