//! The "apple" arguments of a process: a vector of byte strings that some
//! loaders hand to a process beside its arguments and its environment.
//!
//! The library works on a snapshot of that vector, a slice of byte strings.
//! [`capture::capture`] builds one from what the loader handed over; the
//! iterators here walk it, as raw bytes or as UTF-8 text, and [`env`] reads
//! it as `key=value` variables.
use vstd::prelude::*;
use vstd::utf8::{valid_utf8, decode_utf8, encode_utf8};
use vstd::string::StringSliceAdditionalSpecFns;

pub mod bytes;
pub mod capture;
pub mod env;

verus! {

/// The bytes of each entry of a snapshot, in order.
pub open spec fn entries_view(args: Seq<&[u8]>) -> Seq<Seq<u8>> {
    args.map_values(|a: &[u8]| a@)
}

/// Relies on `core::str::from_utf8`: it succeeds exactly when the bytes are
/// valid UTF-8, and then returns a string slice over those same bytes.
#[verifier::external_body]
fn utf8_str<'a>(b: &'a [u8]) -> (r: Option<&'a str>)
    ensures
        r is Some <==> valid_utf8(b@),
        r matches Some(s) ==> s.spec_bytes() == b@,
{
    core::str::from_utf8(b).ok()
}

/// The text of an entry that is valid UTF-8.
fn str_from_slice<'a>(bytes: &'a [u8]) -> (r: &'a str)
    requires
        valid_utf8(bytes@),
    ensures
        r.spec_bytes() == bytes@,
        r@ == decode_utf8(bytes@),
{
    match entry_text(bytes) {
        Some(s) => s,
        None => "",
    }
}

/// The text of an entry: `None` exactly when the entry is not valid UTF-8.
/// This is the test that [`AppleArgs::next`] and [`env::AppleVars::next`]
/// ask their callers to have made.
pub fn entry_text<'a>(bytes: &'a [u8]) -> (r: Option<&'a str>)
    ensures
        r is Some <==> valid_utf8(bytes@),
        r matches Some(s) ==> s.spec_bytes() == bytes@ && s@ == decode_utf8(bytes@),
{
    match utf8_str(bytes) {
        Some(s) => {
            proof {
                vstd::utf8::encode_utf8_decode_utf8(s@);
            }
            Some(s)
        },
        None => None,
    }
}

/// An iterator over the apple arguments of a snapshot, as raw bytes.
pub struct AppleArgsOs<'a> {
    inner: &'a [&'a [u8]],
    front: usize,
    back: usize,
}

impl<'a> View for AppleArgsOs<'a> {
    type V = Seq<Seq<u8>>;

    /// The entries that the iterator has still to yield, front first.
    closed spec fn view(&self) -> Seq<Seq<u8>> {
        entries_view(self.inner@).subrange(self.front as int, self.back as int)
    }
}

impl<'a> Clone for AppleArgsOs<'a> {
    /// A copy of the traversal cursor; the entries are shared.
    fn clone(&self) -> (r: Self)
        ensures
            r@ == self@,
    {
        proof {
            use_type_invariant(self);
        }
        AppleArgsOs { inner: self.inner, front: self.front, back: self.back }
    }
}

impl<'a> AppleArgsOs<'a> {
    #[verifier::type_invariant]
    closed spec fn well_formed(&self) -> bool {
        self.front <= self.back <= self.inner@.len()
    }

    /// Yields the first entry not yet yielded; once none is left, always
    /// `None`.
    pub fn next(&mut self) -> (r: Option<&'a [u8]>)
        ensures
            old(self)@.len() == 0 ==> r is None && final(self)@ == old(self)@,
            old(self)@.len() > 0 ==> r is Some && r->0@ == old(self)@[0]
                && final(self)@ == old(self)@.drop_first(),
    {
        proof {
            use_type_invariant(&*self);
        }
        if self.front < self.back {
            let inner: &'a [&'a [u8]] = self.inner;
            let item: &'a [u8] = inner[self.front];
            self.front = self.front + 1;
            proof {
                assert(old(self)@.drop_first() =~= self@);
            }
            Some(item)
        } else {
            None
        }
    }

    /// Yields the last entry not yet yielded; once none is left, always
    /// `None`.
    pub fn next_back(&mut self) -> (r: Option<&'a [u8]>)
        ensures
            old(self)@.len() == 0 ==> r is None && final(self)@ == old(self)@,
            old(self)@.len() > 0 ==> r is Some && r->0@ == old(self)@.last()
                && final(self)@ == old(self)@.drop_last(),
    {
        proof {
            use_type_invariant(&*self);
        }
        if self.front < self.back {
            let inner: &'a [&'a [u8]] = self.inner;
            self.back = self.back - 1;
            let item: &'a [u8] = inner[self.back];
            proof {
                assert(old(self)@.drop_last() =~= self@);
            }
            Some(item)
        } else {
            None
        }
    }

    /// The number of entries still to be yielded.
    pub fn len(&self) -> (r: usize)
        ensures
            r == self@.len(),
    {
        proof {
            use_type_invariant(self);
        }
        self.back - self.front
    }

    /// Both bounds are the exact number of entries still to be yielded.
    pub fn size_hint(&self) -> (r: (usize, Option<usize>))
        ensures
            r.0 == self@.len(),
            r.1 == Some(self@.len() as usize),
    {
        let n = self.len();
        (n, Some(n))
    }

    /// The number of entries still to be yielded, consuming the iterator.
    pub fn count(self) -> (r: usize)
        ensures
            r == self@.len(),
    {
        self.len()
    }
}

/// The apple arguments of a snapshot, as raw bytes, in order.
pub fn apple_args_os<'a>(args: &'a [&'a [u8]]) -> (r: AppleArgsOs<'a>)
    ensures
        r@ == entries_view(args@),
{
    let r = AppleArgsOs { inner: args, front: 0, back: args.len() };
    proof {
        assert(r@ =~= entries_view(args@));
    }
    r
}

/// An iterator over the apple arguments of a snapshot, as UTF-8 text.
///
/// Taking an entry that is not valid UTF-8 is a caller's error: use
/// [`AppleArgsOs`] where entries may hold other bytes.
pub struct AppleArgs<'a> {
    inner: AppleArgsOs<'a>,
}

impl<'a> View for AppleArgs<'a> {
    type V = Seq<Seq<u8>>;

    /// The bytes of the entries that the iterator has still to yield.
    closed spec fn view(&self) -> Seq<Seq<u8>> {
        self.inner@
    }
}

impl<'a> Clone for AppleArgs<'a> {
    /// A copy of the traversal cursor; the entries are shared.
    fn clone(&self) -> (r: Self)
        ensures
            r@ == self@,
    {
        AppleArgs { inner: self.inner.clone() }
    }
}

impl<'a> AppleArgs<'a> {
    /// The bytes of the entry that `next` would take, without taking it.
    pub fn peek(&self) -> (r: Option<&'a [u8]>)
        ensures
            self@.len() == 0 ==> r is None,
            self@.len() > 0 ==> (r matches Some(b) && b@ == self@[0]),
    {
        let mut c = self.inner.clone();
        c.next()
    }

    /// The bytes of the entry that `next_back` would take, without taking it.
    pub fn peek_back(&self) -> (r: Option<&'a [u8]>)
        ensures
            self@.len() == 0 ==> r is None,
            self@.len() > 0 ==> (r matches Some(b) && b@ == self@.last()),
    {
        let mut c = self.inner.clone();
        c.next_back()
    }

    /// Yields the text of the first entry not yet yielded; once none is left,
    /// always `None`.
    pub fn next(&mut self) -> (r: Option<&'a str>)
        requires
            old(self)@.len() > 0 ==> valid_utf8(old(self)@[0]),
        ensures
            old(self)@.len() == 0 ==> r is None && final(self)@ == old(self)@,
            old(self)@.len() > 0 ==> r is Some && r->0.spec_bytes() == old(self)@[0]
                && r->0@ == decode_utf8(old(self)@[0]) && final(self)@ == old(self)@.drop_first(),
    {
        match self.inner.next() {
            Some(b) => Some(str_from_slice(b)),
            None => None,
        }
    }

    /// Yields the text of the last entry not yet yielded; once none is left,
    /// always `None`.
    pub fn next_back(&mut self) -> (r: Option<&'a str>)
        requires
            old(self)@.len() > 0 ==> valid_utf8(old(self)@.last()),
        ensures
            old(self)@.len() == 0 ==> r is None && final(self)@ == old(self)@,
            old(self)@.len() > 0 ==> r is Some && r->0.spec_bytes() == old(self)@.last()
                && r->0@ == decode_utf8(old(self)@.last()) && final(self)@ == old(
                self,
            )@.drop_last(),
    {
        match self.inner.next_back() {
            Some(b) => Some(str_from_slice(b)),
            None => None,
        }
    }

    /// The number of entries still to be yielded.
    pub fn len(&self) -> (r: usize)
        ensures
            r == self@.len(),
    {
        self.inner.len()
    }

    /// Both bounds are the exact number of entries still to be yielded.
    pub fn size_hint(&self) -> (r: (usize, Option<usize>))
        ensures
            r.0 == self@.len(),
            r.1 == Some(self@.len() as usize),
    {
        self.inner.size_hint()
    }

    /// The number of entries still to be yielded, consuming the iterator.
    pub fn count(self) -> (r: usize)
        ensures
            r == self@.len(),
    {
        self.inner.count()
    }
}

/// The apple arguments of a snapshot, as UTF-8 text, in order.
pub fn apple_args<'a>(args: &'a [&'a [u8]]) -> (r: AppleArgs<'a>)
    ensures
        r@ == entries_view(args@),
{
    AppleArgs { inner: apple_args_os(args) }
}

/// The text of each of a sequence of entries.
pub open spec fn decoded(es: Seq<Seq<u8>>) -> Seq<Seq<char>> {
    es.map_values(|e: Seq<u8>| decode_utf8(e))
}

/// Where every entry is valid UTF-8, the text iteration and the byte
/// iteration give the same entries in the same order: the `i`th text encodes
/// to exactly the `i`th byte string.
pub proof fn lemma_text_matches_bytes(es: Seq<Seq<u8>>)
    requires
        forall|i: int| 0 <= i < es.len() ==> valid_utf8(#[trigger] es[i]),
    ensures
        decoded(es).len() == es.len(),
        forall|i: int| 0 <= i < es.len() ==> encode_utf8(#[trigger] decoded(es)[i]) == es[i],
{
    assert forall|i: int| 0 <= i < es.len() implies encode_utf8(#[trigger] decoded(es)[i])
        == es[i] by {
        vstd::utf8::decode_utf8_encode_utf8(es[i]);
    }
}

/// A vector that is absent or empty gives an empty snapshot, and an empty
/// snapshot gives nothing to every query: no entry, no pair, no value for
/// any key.
pub proof fn lemma_empty_capture(k: Seq<u8>)
    ensures
        capture::captured(Seq::<Seq<u8>>::empty()) == Seq::<Seq<u8>>::empty(),
        entries_view(Seq::<&[u8]>::empty()) == Seq::<Seq<u8>>::empty(),
        env::kv_pairs(Seq::<Seq<u8>>::empty()) == Seq::<(Seq<u8>, Seq<u8>)>::empty(),
        env::lookup(k, Seq::<Seq<u8>>::empty()) is None,
{
    assert(entries_view(Seq::<&[u8]>::empty()) =~= Seq::<Seq<u8>>::empty());
}

/// The items that calling `next` until it gives `None` yields, one per
/// call, by the contracts of the `next` methods: first item first.
pub open spec fn drain_front<A>(s: Seq<A>) -> Seq<A>
    decreases s.len(),
{
    if s.len() == 0 {
        Seq::empty()
    } else {
        seq![s[0]] + drain_front(s.drop_first())
    }
}

/// The items that calling `next_back` until it gives `None` yields, one per
/// call, by the contracts of the `next_back` methods: last item first.
pub open spec fn drain_back<A>(s: Seq<A>) -> Seq<A>
    decreases s.len(),
{
    if s.len() == 0 {
        Seq::empty()
    } else {
        seq![s.last()] + drain_back(s.drop_last())
    }
}

/// Traversal from the back yields exactly the reverse of traversal from the
/// front, and either yields as many items as the iterator reports left.
pub proof fn lemma_reverse_traversal<A>(s: Seq<A>)
    ensures
        drain_front(s) == s,
        drain_back(s) == s.reverse(),
        drain_back(s) == drain_front(s).reverse(),
        drain_front(s).len() == s.len(),
        drain_back(s).len() == s.len(),
    decreases s.len(),
{
    if s.len() > 0 {
        lemma_reverse_traversal(s.drop_first());
        lemma_reverse_traversal(s.drop_last());
        assert(seq![s[0]] + s.drop_first() =~= s);
        assert(seq![s.last()] + s.drop_last().reverse() =~= s.reverse());
    } else {
        assert(s.reverse() =~= Seq::<A>::empty());
    }
}

} // verus!
