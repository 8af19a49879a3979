//! The apple arguments read as a second environment: each entry of the form
//! `key=value` is a variable. Entries without `=` are not variables and are
//! passed over here; the iterators of the crate root still show them.
use vstd::prelude::*;
use vstd::utf8::{valid_utf8, decode_utf8};
use vstd::string::StringSliceAdditionalSpecFns;
use crate::bytes::{index_of, position};
use crate::{AppleArgsOs, apple_args_os, entries_view};

verus! {

/// The byte that ends a key.
pub const EQUALS: u8 = 0x3du8;

/// An entry split at its first `=`: the bytes before it and the bytes after
/// it; `None` where the entry holds no `=`.
pub open spec fn split_entry(e: Seq<u8>) -> Option<(Seq<u8>, Seq<u8>)> {
    let i = index_of(e, EQUALS);
    if i < e.len() {
        Some((e.subrange(0, i), e.subrange(i + 1, e.len() as int)))
    } else {
        None
    }
}

/// The key/value pairs of a sequence of entries, in order.
pub open spec fn kv_pairs(es: Seq<Seq<u8>>) -> Seq<(Seq<u8>, Seq<u8>)>
    decreases es.len(),
{
    if es.len() == 0 {
        seq![]
    } else {
        let rest = kv_pairs(es.drop_first());
        match split_entry(es[0]) {
            Some(p) => seq![p] + rest,
            None => rest,
        }
    }
}

/// Entry `e` defines key `k`: `k` is followed in `e` by `=`.
pub open spec fn defines(k: Seq<u8>, e: Seq<u8>) -> bool {
    &&& k.len() < e.len()
    &&& e[k.len() as int] == EQUALS
    &&& e.subrange(0, k.len() as int) == k
}

/// The value of `k` in the first entry that defines it.
pub open spec fn first_value(k: Seq<u8>, es: Seq<Seq<u8>>) -> Option<Seq<u8>>
    decreases es.len(),
{
    if es.len() == 0 {
        None
    } else if defines(k, es[0]) {
        Some(es[0].subrange(k.len() + 1 as int, es[0].len() as int))
    } else {
        first_value(k, es.drop_first())
    }
}

/// What looking up `k` finds: nothing for a key holding a NUL byte, else the
/// value in the first entry that defines `k`.
pub open spec fn lookup(k: Seq<u8>, es: Seq<Seq<u8>>) -> Option<Seq<u8>> {
    if k.contains(0u8) {
        None
    } else {
        first_value(k, es)
    }
}

/// Splits an entry at its first `=`.
pub fn split_kv<'a>(s: &'a [u8]) -> (r: Option<(&'a [u8], &'a [u8])>)
    ensures
        match (r, split_entry(s@)) {
            (Some((k, v)), Some((sk, sv))) => k@ == sk && v@ == sv,
            (None, None) => true,
            _ => false,
        },
{
    let i = position(s, EQUALS);
    if i < s.len() {
        Some((vstd::slice::slice_subrange(s, 0, i), vstd::slice::slice_subrange(s, i + 1, s.len())))
    } else {
        None
    }
}

/// Whether `a` starts with the bytes of `k`.
fn starts_with(a: &[u8], k: &[u8]) -> (r: bool)
    ensures
        r == (k@.len() <= a@.len() && a@.subrange(0, k@.len() as int) == k@),
{
    if k.len() > a.len() {
        return false;
    }
    let mut i: usize = 0;
    while i < k.len()
        invariant
            k@.len() <= a@.len(),
            i <= k@.len(),
            forall|j: int| 0 <= j < i ==> a@[j] == k@[j],
        decreases k@.len() - i,
    {
        if a[i] != k[i] {
            assert(a@.subrange(0, k@.len() as int)[i as int] != k@[i as int]);
            return false;
        }
        i = i + 1;
    }
    assert(a@.subrange(0, k@.len() as int) =~= k@);
    true
}

/// Looks `k` up in `env`: the value after `k=` in the first entry that starts
/// so. A key holding a NUL byte is never found.
pub fn apple_getenv<'env>(k: &[u8], env: &[&'env [u8]]) -> (r: Option<&'env [u8]>)
    ensures
        match (r, lookup(k@, crate::entries_view(env@))) {
            (Some(v), Some(sv)) => v@ == sv,
            (None, None) => true,
            _ => false,
        },
{
    if position(k, 0u8) < k.len() {
        return None;
    }
    proof {
        assert(!k@.contains(0u8));
    }
    let ghost es = crate::entries_view(env@);
    let mut i: usize = 0;
    proof {
        assert(es.subrange(0, es.len() as int) =~= es);
    }
    while i < env.len()
        invariant
            i <= env@.len(),
            es == crate::entries_view(env@),
            !k@.contains(0u8),
            first_value(k@, es) == first_value(k@, es.subrange(i as int, es.len() as int)),
        decreases env@.len() - i,
    {
        let a: &'env [u8] = env[i];
        let ghost tail = es.subrange(i as int, es.len() as int);
        proof {
            assert(tail[0] == a@);
            assert(tail.drop_first() =~= es.subrange(i as int + 1, es.len() as int));
        }
        if k.len() < a.len() && a[k.len()] == EQUALS && starts_with(a, k) {
            proof {
                assert(defines(k@, tail[0]));
            }
            return Some(vstd::slice::slice_subrange(a, k.len() + 1, a.len()));
        }
        i = i + 1;
    }
    None
}

/// The pairs of two sequences of entries put together are the pairs of the
/// first followed by those of the second.
pub proof fn lemma_kv_pairs_append(a: Seq<Seq<u8>>, b: Seq<Seq<u8>>)
    ensures
        kv_pairs(a + b) == kv_pairs(a) + kv_pairs(b),
    decreases a.len(),
{
    if a.len() == 0 {
        assert(a + b =~= b);
        assert(kv_pairs(a) + kv_pairs(b) =~= kv_pairs(b));
    } else {
        assert((a + b).drop_first() =~= a.drop_first() + b);
        lemma_kv_pairs_append(a.drop_first(), b);
        assert((a + b)[0] == a[0]);
        match split_entry(a[0]) {
            Some(p) => {
                assert(seq![p] + (kv_pairs(a.drop_first()) + kv_pairs(b)) =~= (seq![p]
                    + kv_pairs(a.drop_first())) + kv_pairs(b));
            },
            None => {},
        }
    }
}

/// The pairs of a sequence of entries, taken from its back end.
pub proof fn lemma_kv_pairs_last(es: Seq<Seq<u8>>)
    requires
        es.len() > 0,
    ensures
        kv_pairs(es) == match split_entry(es.last()) {
            Some(p) => kv_pairs(es.drop_last()).push(p),
            None => kv_pairs(es.drop_last()),
        },
{
    let one = seq![es.last()];
    assert(es =~= es.drop_last() + one);
    lemma_kv_pairs_append(es.drop_last(), one);
    assert(one.drop_first() =~= Seq::<Seq<u8>>::empty());
    assert(kv_pairs(one.drop_first()) =~= seq![]);
    assert(one[0] == es.last());
    match split_entry(es.last()) {
        Some(p) => {
            assert(kv_pairs(es.drop_last()) + seq![p] =~= kv_pairs(es.drop_last()).push(p));
        },
        None => {
            assert(kv_pairs(es.drop_last()) + seq![] =~= kv_pairs(es.drop_last()));
        },
    }
}

/// There are no more pairs than entries.
pub proof fn lemma_kv_pairs_len(es: Seq<Seq<u8>>)
    ensures
        kv_pairs(es).len() <= es.len(),
    decreases es.len(),
{
    if es.len() > 0 {
        lemma_kv_pairs_len(es.drop_first());
    }
}

/// The entries left after reading from the front up to and including the
/// first entry that holds a `=`; none if no entry holds one.
pub open spec fn after_first_pair(es: Seq<Seq<u8>>) -> Seq<Seq<u8>>
    decreases es.len(),
{
    if es.len() == 0 {
        es
    } else if split_entry(es[0]) is Some {
        es.drop_first()
    } else {
        after_first_pair(es.drop_first())
    }
}

/// The entries left after reading from the back up to and including the
/// last entry that holds a `=`; none if no entry holds one.
pub open spec fn before_last_pair(es: Seq<Seq<u8>>) -> Seq<Seq<u8>>
    decreases es.len(),
{
    if es.len() == 0 {
        es
    } else if split_entry(es.last()) is Some {
        es.drop_last()
    } else {
        before_last_pair(es.drop_last())
    }
}

/// The key/value pairs of the entries of a snapshot that hold a `=`, as raw
/// bytes, in order.
pub(crate) struct SplitArgsIter<'a> {
    entries: AppleArgsOs<'a>,
}

impl<'a> SplitArgsIter<'a> {
    /// The entries still to be read, holders of a `=` or not.
    pub(crate) closed spec fn entries(&self) -> Seq<Seq<u8>> {
        self.entries@
    }

    pub(crate) fn clone(&self) -> (r: Self)
        ensures
            r.entries() == self.entries(),
    {
        SplitArgsIter { entries: self.entries.clone() }
    }

    pub(crate) fn next(&mut self) -> (r: Option<(&'a [u8], &'a [u8])>)
        ensures
            kv_pairs(old(self).entries()).len() == 0 ==> r is None && kv_pairs(final(self).entries()).len() == 0,
            kv_pairs(old(self).entries()).len() > 0 ==> (r matches Some((k, v))
                && (k@, v@) == kv_pairs(old(self).entries())[0]
                && kv_pairs(final(self).entries()) == kv_pairs(old(self).entries()).drop_first()),
            final(self).entries() == after_first_pair(old(self).entries()),
            r is None ==> final(self).entries().len() == 0,
    {
        loop
            invariant
                kv_pairs(self.entries()) == kv_pairs(old(self).entries()),
                after_first_pair(self.entries()) == after_first_pair(old(self).entries()),
                self.entries().len() <= old(self).entries().len(),
            decreases self.entries().len(),
        {
            let ghost es = self.entries();
            match self.entries.next() {
                None => {
                    return None;
                },
                Some(e) => {
                    let r = split_kv(e);
                    assert(es[0] == e@);
                    match r {
                        Some(p) => {
                            return Some(p);
                        },
                        None => {},
                    }
                },
            }
        }
    }

    pub(crate) fn next_back(&mut self) -> (r: Option<(&'a [u8], &'a [u8])>)
        ensures
            kv_pairs(old(self).entries()).len() == 0 ==> r is None && kv_pairs(final(self).entries()).len() == 0,
            kv_pairs(old(self).entries()).len() > 0 ==> (r matches Some((k, v))
                && (k@, v@) == kv_pairs(old(self).entries()).last()
                && kv_pairs(final(self).entries()) == kv_pairs(old(self).entries()).drop_last()),
            final(self).entries() == before_last_pair(old(self).entries()),
            r is None ==> final(self).entries().len() == 0,
    {
        loop
            invariant
                kv_pairs(self.entries()) == kv_pairs(old(self).entries()),
                before_last_pair(self.entries()) == before_last_pair(old(self).entries()),
                self.entries().len() <= old(self).entries().len(),
            decreases self.entries().len(),
        {
            let ghost es = self.entries();
            match self.entries.next_back() {
                None => {
                    return None;
                },
                Some(e) => {
                    proof {
                        lemma_kv_pairs_last(es);
                    }
                    let r = split_kv(e);
                    match r {
                        Some(p) => {
                            proof {
                                assert(kv_pairs(es).drop_last() =~= kv_pairs(es.drop_last()));
                            }
                            return Some(p);
                        },
                        None => {},
                    }
                },
            }
        }
    }

    pub(crate) fn size_hint(&self) -> (r: (usize, Option<usize>))
        ensures
            r.0 == 0,
            r.1 == Some(self.entries().len() as usize),
            kv_pairs(self.entries()).len() <= self.entries().len(),
    {
        proof {
            lemma_kv_pairs_len(self.entries());
        }
        (0, Some(self.entries.len()))
    }
}

/// The pairs of every entry of `args` that holds a `=`.
pub(crate) fn split_args_iter<'a>(args: &'a [&'a [u8]]) -> (r: SplitArgsIter<'a>)
    ensures
        r.entries() == entries_view(args@),
{
    SplitArgsIter { entries: apple_args_os(args) }
}

/// An iterator over the variables of a snapshot: the key and value of each
/// entry that holds a `=`, as raw bytes.
pub struct AppleVarsOs<'a> {
    inner: SplitArgsIter<'a>,
}

impl<'a> View for AppleVarsOs<'a> {
    type V = Seq<(Seq<u8>, Seq<u8>)>;

    /// The pairs that the iterator has still to yield, front first.
    open spec fn view(&self) -> Seq<(Seq<u8>, Seq<u8>)> {
        kv_pairs(self.entries())
    }
}

impl<'a> Clone for AppleVarsOs<'a> {
    /// A copy of the traversal cursor; the entries are shared.
    fn clone(&self) -> (r: Self)
        ensures
            r.entries() == self.entries(),
    {
        AppleVarsOs { inner: self.inner.clone() }
    }
}

impl<'a> AppleVarsOs<'a> {
    /// The entries still to be read, variables or not, front first.
    pub closed spec fn entries(&self) -> Seq<Seq<u8>> {
        self.inner.entries()
    }

    /// Yields the first pair not yet yielded; once none is left, always
    /// `None`.
    pub fn next(&mut self) -> (r: Option<(&'a [u8], &'a [u8])>)
        ensures
            old(self)@.len() == 0 ==> r is None && final(self)@.len() == 0,
            old(self)@.len() > 0 ==> (r matches Some((k, v)) && (k@, v@) == old(self)@[0]
                && final(self)@ == old(self)@.drop_first()),
            final(self).entries() == after_first_pair(old(self).entries()),
            r is None ==> final(self).entries().len() == 0,
    {
        self.inner.next()
    }

    /// Yields the last pair not yet yielded; once none is left, always
    /// `None`.
    pub fn next_back(&mut self) -> (r: Option<(&'a [u8], &'a [u8])>)
        ensures
            old(self)@.len() == 0 ==> r is None && final(self)@.len() == 0,
            old(self)@.len() > 0 ==> (r matches Some((k, v)) && (k@, v@) == old(self)@.last()
                && final(self)@ == old(self)@.drop_last()),
            final(self).entries() == before_last_pair(old(self).entries()),
            r is None ==> final(self).entries().len() == 0,
    {
        self.inner.next_back()
    }

    /// No lower bound; the upper bound is the number of entries still to be
    /// read, which no pair count exceeds.
    pub fn size_hint(&self) -> (r: (usize, Option<usize>))
        ensures
            r.0 == 0,
            r.1 == Some(self.entries().len() as usize),
            self@.len() <= self.entries().len(),
    {
        self.inner.size_hint()
    }
}

/// The variables of a snapshot as raw bytes, in order.
pub fn apple_vars_os<'a>(args: &'a [&'a [u8]]) -> (r: AppleVarsOs<'a>)
    ensures
        r.entries() == entries_view(args@),
{
    AppleVarsOs { inner: split_args_iter(args) }
}

/// An iterator over the variables of a snapshot as UTF-8 text.
///
/// Taking a pair whose key or value is not valid UTF-8 is a caller's error:
/// use [`AppleVarsOs`] where they may hold other bytes.
pub struct AppleVars<'a> {
    inner: SplitArgsIter<'a>,
}

impl<'a> View for AppleVars<'a> {
    type V = Seq<(Seq<u8>, Seq<u8>)>;

    /// The bytes of the pairs that the iterator has still to yield.
    open spec fn view(&self) -> Seq<(Seq<u8>, Seq<u8>)> {
        kv_pairs(self.entries())
    }
}

impl<'a> Clone for AppleVars<'a> {
    /// A copy of the traversal cursor; the entries are shared.
    fn clone(&self) -> (r: Self)
        ensures
            r.entries() == self.entries(),
    {
        AppleVars { inner: self.inner.clone() }
    }
}

/// Both halves of a pair are valid UTF-8.
pub open spec fn pair_is_utf8(p: (Seq<u8>, Seq<u8>)) -> bool {
    valid_utf8(p.0) && valid_utf8(p.1)
}

impl<'a> AppleVars<'a> {
    /// The bytes of the pair that `next` would take, without taking it.
    pub fn peek(&self) -> (r: Option<(&'a [u8], &'a [u8])>)
        ensures
            self@.len() == 0 ==> r is None,
            self@.len() > 0 ==> (r matches Some((k, v)) && (k@, v@) == self@[0]),
    {
        let mut c = self.inner.clone();
        c.next()
    }

    /// The bytes of the pair that `next_back` would take, without taking it.
    pub fn peek_back(&self) -> (r: Option<(&'a [u8], &'a [u8])>)
        ensures
            self@.len() == 0 ==> r is None,
            self@.len() > 0 ==> (r matches Some((k, v)) && (k@, v@) == self@.last()),
    {
        let mut c = self.inner.clone();
        c.next_back()
    }

    /// The entries still to be read, variables or not, front first.
    pub closed spec fn entries(&self) -> Seq<Seq<u8>> {
        self.inner.entries()
    }

    /// Yields the text of the first pair not yet yielded; once none is left,
    /// always `None`.
    pub fn next(&mut self) -> (r: Option<(&'a str, &'a str)>)
        requires
            old(self)@.len() > 0 ==> pair_is_utf8(old(self)@[0]),
        ensures
            old(self)@.len() == 0 ==> r is None && final(self)@.len() == 0,
            old(self)@.len() > 0 ==> (r matches Some((k, v)) && k.spec_bytes() == old(self)@[0].0
                && v.spec_bytes() == old(self)@[0].1 && k@ == decode_utf8(old(self)@[0].0)
                && v@ == decode_utf8(old(self)@[0].1) && final(self)@ == old(self)@.drop_first()),
            final(self).entries() == after_first_pair(old(self).entries()),
            r is None ==> final(self).entries().len() == 0,
    {
        match self.inner.next() {
            Some((k, v)) => Some((crate::str_from_slice(k), crate::str_from_slice(v))),
            None => None,
        }
    }

    /// Yields the text of the last pair not yet yielded; once none is left,
    /// always `None`.
    pub fn next_back(&mut self) -> (r: Option<(&'a str, &'a str)>)
        requires
            old(self)@.len() > 0 ==> pair_is_utf8(old(self)@.last()),
        ensures
            old(self)@.len() == 0 ==> r is None && final(self)@.len() == 0,
            old(self)@.len() > 0 ==> (r matches Some((k, v)) && k.spec_bytes() == old(
                self,
            )@.last().0 && v.spec_bytes() == old(self)@.last().1 && k@ == decode_utf8(
                old(self)@.last().0,
            ) && v@ == decode_utf8(old(self)@.last().1) && final(self)@ == old(
                self,
            )@.drop_last()),
            final(self).entries() == before_last_pair(old(self).entries()),
            r is None ==> final(self).entries().len() == 0,
    {
        match self.inner.next_back() {
            Some((k, v)) => Some((crate::str_from_slice(k), crate::str_from_slice(v))),
            None => None,
        }
    }

    /// No lower bound; the upper bound is the number of entries still to be
    /// read, which no pair count exceeds.
    pub fn size_hint(&self) -> (r: (usize, Option<usize>))
        ensures
            r.0 == 0,
            r.1 == Some(self.entries().len() as usize),
            self@.len() <= self.entries().len(),
    {
        self.inner.size_hint()
    }
}

/// The variables of a snapshot as UTF-8 text, in order.
pub fn apple_vars<'a>(args: &'a [&'a [u8]]) -> (r: AppleVars<'a>)
    ensures
        r.entries() == entries_view(args@),
{
    AppleVars { inner: split_args_iter(args) }
}

/// Why [`apple_var`] found no text.
#[derive(Debug, PartialEq, Eq, Clone)]
pub enum VarError<'a> {
    /// No entry defines the variable.
    NotPresent,
    /// An entry defines the variable, but its value is not valid UTF-8; these
    /// are its bytes.
    NotUnicode(&'a [u8]),
}

/// The value of variable `s` in the snapshot `args`, as raw bytes: the value
/// in the first entry that defines it.
pub fn apple_var_os<'a>(args: &'a [&'a [u8]], s: &[u8]) -> (r: Option<&'a [u8]>)
    ensures
        match (r, lookup(s@, entries_view(args@))) {
            (Some(v), Some(sv)) => v@ == sv,
            (None, None) => true,
            _ => false,
        },
{
    apple_getenv(s, args)
}

/// The value of variable `s` in the snapshot `args`, as UTF-8 text. Tells a
/// variable that is absent from one whose value is not valid UTF-8.
pub fn apple_var<'a>(args: &'a [&'a [u8]], s: &[u8]) -> (r: Result<&'a str, VarError<'a>>)
    ensures
        lookup(s@, entries_view(args@)) is None ==> r == Err::<&'a str, VarError<'a>>(
            VarError::NotPresent,
        ),
        lookup(s@, entries_view(args@)) matches Some(v) ==> (valid_utf8(v) ==> (r matches Ok(t)
            && t.spec_bytes() == v && t@ == decode_utf8(v))),
        lookup(s@, entries_view(args@)) matches Some(v) ==> (!valid_utf8(v) ==> (r matches Err(
            VarError::NotUnicode(b),
        ) && b@ == v)),
{
    match apple_getenv(s, args) {
        Some(v) => match crate::utf8_str(v) {
            Some(t) => {
                proof {
                    vstd::utf8::encode_utf8_decode_utf8(t@);
                }
                Ok(t)
            },
            None => Err(VarError::NotUnicode(v)),
        },
        None => Err(VarError::NotPresent),
    }
}

/// An entry `K=V` whose key holds no `=` splits into exactly `(K, V)`, and
/// the pair iterator yields that pair for it; `K` or `V` may be empty.
pub proof fn lemma_split_law(k: Seq<u8>, v: Seq<u8>)
    requires
        !k.contains(EQUALS),
    ensures
        split_entry(k + seq![EQUALS] + v) == Some((k, v)),
        kv_pairs(seq![k + seq![EQUALS] + v]) == seq![(k, v)],
{
    let e = k + seq![EQUALS] + v;
    assert(e[k.len() as int] == EQUALS);
    assert forall|j: int| 0 <= j < k.len() implies e[j] != EQUALS by {
        assert(e[j] == k[j]);
    }
    crate::bytes::lemma_first_pos_unique(e, EQUALS, k.len() as int);
    assert(e.subrange(0, k.len() as int) =~= k);
    assert(e.subrange(k.len() + 1 as int, e.len() as int) =~= v);
    assert(seq![e].drop_first() =~= Seq::<Seq<u8>>::empty());
    assert(kv_pairs(Seq::<Seq<u8>>::empty()) =~= seq![]);
    assert(seq![(k, v)] + seq![] =~= seq![(k, v)]);
}

/// An entry with no `=` is no variable: it splits into nothing and the pair
/// iterator passes over it.
pub proof fn lemma_no_split_without_equals(e: Seq<u8>)
    requires
        !e.contains(EQUALS),
    ensures
        split_entry(e) is None,
        kv_pairs(seq![e]) == Seq::<(Seq<u8>, Seq<u8>)>::empty(),
{
    crate::bytes::lemma_first_pos_unique(e, EQUALS, e.len() as int);
    assert(seq![e].drop_first() =~= Seq::<Seq<u8>>::empty());
    assert(kv_pairs(Seq::<Seq<u8>>::empty()) =~= seq![]);
}

} // verus!
