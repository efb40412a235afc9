use vstd::prelude::*;

verus! {

/// A key of the replicated store.
#[derive(Debug, PartialEq, Eq, Hash)]
pub struct K(Vec<u8>);

/// A value of the replicated store.
#[derive(Debug, PartialEq, Eq, Hash)]
pub struct V(Vec<u8>);

impl View for K {
    type V = Seq<u8>;

    closed spec fn view(&self) -> Seq<u8> {
        self.0@
    }
}

impl View for V {
    type V = Seq<u8>;

    closed spec fn view(&self) -> Seq<u8> {
        self.0@
    }
}

impl K {
    /// The bytes of the key.
    pub fn as_vec(self) -> (r: Vec<u8>)
        ensures
            r@ == self@,
    {
        self.0
    }

    /// Whether `self` and `other` are the same key.
    pub(crate) fn same_key(&self, other: &K) -> (r: bool)
        ensures
            r == (self@ == other@),
    {
        bytes_eq(&self.0, &other.0)
    }
}

/// Whether two byte vectors hold the same bytes.
pub(crate) fn bytes_eq(a: &Vec<u8>, b: &Vec<u8>) -> (r: bool)
    ensures
        r == (a@ == b@),
{
    if a.len() != b.len() {
        return false;
    }
    let n = a.len();
    let mut i: usize = 0;
    while i < n
        invariant
            n == a@.len(),
            n == b@.len(),
            i <= n,
            forall|j: int| 0 <= j < i ==> a@[j] == b@[j],
        decreases n - i,
    {
        if a[i] != b[i] {
            return false;
        }
        i = i + 1;
    }
    assert(a@ =~= b@);
    true
}

impl V {
    /// Whether `self` and `other` are the same value.
    pub(crate) fn same_value(&self, other: &V) -> (r: bool)
        ensures
            r == (self@ == other@),
    {
        bytes_eq(&self.0, &other.0)
    }

    /// The bytes of the value.
    pub fn as_vec(self) -> (r: Vec<u8>)
        ensures
            r@ == self@,
    {
        self.0
    }
}

impl Clone for K {
    fn clone(&self) -> (r: Self)
        ensures
            r@ == self@,
    {
        let b = self.0.clone();
        assert(b@ =~= self.0@);
        K(b)
    }
}

impl Clone for V {
    fn clone(&self) -> (r: Self)
        ensures
            r@ == self@,
    {
        let b = self.0.clone();
        assert(b@ =~= self.0@);
        V(b)
    }
}

impl From<Vec<u8>> for K {
    fn from(val: Vec<u8>) -> (r: K)
        ensures
            r@ == val@,
    {
        K(val)
    }
}

impl vstd::std_specs::convert::FromSpecImpl<Vec<u8>> for K {
    open spec fn obeys_from_spec() -> bool {
        true
    }

    closed spec fn from_spec(v: Vec<u8>) -> K {
        K(v)
    }
}

impl From<Vec<u8>> for V {
    fn from(val: Vec<u8>) -> (r: V)
        ensures
            r@ == val@,
    {
        V(val)
    }
}

impl vstd::std_specs::convert::FromSpecImpl<Vec<u8>> for V {
    open spec fn obeys_from_spec() -> bool {
        true
    }

    closed spec fn from_spec(v: Vec<u8>) -> V {
        V(v)
    }
}

/// Turning a key back into its bytes; `Into<Vec<u8>>` for `K` follows from it.
impl From<K> for Vec<u8> {
    fn from(val: K) -> (r: Vec<u8>)
        ensures
            r@ == val@,
    {
        val.0
    }
}

impl vstd::std_specs::convert::FromSpecImpl<K> for Vec<u8> {
    open spec fn obeys_from_spec() -> bool {
        true
    }

    closed spec fn from_spec(v: K) -> Vec<u8> {
        v.0
    }
}

/// Turning a value back into its bytes; `Into<Vec<u8>>` for `V` follows from it.
impl From<V> for Vec<u8> {
    fn from(val: V) -> (r: Vec<u8>)
        ensures
            r@ == val@,
    {
        val.0
    }
}

impl vstd::std_specs::convert::FromSpecImpl<V> for Vec<u8> {
    open spec fn obeys_from_spec() -> bool {
        true
    }

    closed spec fn from_spec(v: V) -> Vec<u8> {
        v.0
    }
}

/// A client command: write a value, read a key, or delete a key.
#[derive(Debug, PartialEq, Eq, Hash)]
pub enum Command {
    PUT(K, V),
    GET(K),
    DELETE(K),
}

/// The mathematical content of a command: keys and values as byte sequences.
pub enum CommandView {
    Put(Seq<u8>, Seq<u8>),
    Get(Seq<u8>),
    Delete(Seq<u8>),
}

impl View for Command {
    type V = CommandView;

    open spec fn view(&self) -> CommandView {
        match self {
            Command::PUT(k, v) => CommandView::Put(k@, v@),
            Command::GET(k) => CommandView::Get(k@),
            Command::DELETE(k) => CommandView::Delete(k@),
        }
    }
}

impl Clone for Command {
    fn clone(&self) -> (r: Self)
        ensures
            r@ == self@,
    {
        match self {
            Command::PUT(k, v) => Command::PUT(k.clone(), v.clone()),
            Command::GET(k) => Command::GET(k.clone()),
            Command::DELETE(k) => Command::DELETE(k.clone()),
        }
    }
}

} // verus!
