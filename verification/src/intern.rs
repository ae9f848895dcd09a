//! String interning registry.
//!
//! Each distinct string is stored once; interning hands out a small integer
//! handle that gives the string back.
use vstd::prelude::*;

verus! {

/// The strings held after interning `s`: unchanged if `s` is among them,
/// else with `s` added last.
pub open spec fn after_intern(strings: Seq<Seq<char>>, s: Seq<char>) -> Seq<Seq<char>> {
    if strings.contains(s) {
        strings
    } else {
        strings.push(s)
    }
}

/// The handle that interning `s` gives: the position of `s` among the
/// strings held, or the next position if it is not among them.
pub open spec fn intern_handle(strings: Seq<Seq<char>>, s: Seq<char>) -> int {
    if strings.contains(s) {
        strings.index_of(s)
    } else {
        strings.len() as int
    }
}

/// Reading back: after interning `s`, its handle gives `s`.
pub proof fn lemma_intern_then_get(strings: Seq<Seq<char>>, s: Seq<char>)
    ensures
        0 <= intern_handle(strings, s) < after_intern(strings, s).len(),
        after_intern(strings, s)[intern_handle(strings, s)] == s,
        strings.no_duplicates() ==> after_intern(strings, s).no_duplicates(),
{
    if strings.contains(s) {
    }
}

/// Interning a string a second time gives the same handle and keeps the
/// strings as they are.
pub proof fn lemma_intern_twice(strings: Seq<Seq<char>>, s: Seq<char>)
    ensures
        after_intern(after_intern(strings, s), s) == after_intern(strings, s),
        intern_handle(after_intern(strings, s), s) == intern_handle(strings, s),
{
    let once = after_intern(strings, s);
    if strings.contains(s) {
    } else {
        assert(once[strings.len() as int] == s);
        assert(once.contains(s));
        assert forall|j: int| 0 <= j < strings.len() implies once[j] != s by {
            assert(once[j] == strings[j]);
        }
    }
}

/// Different strings get different handles.
pub proof fn lemma_intern_distinct(strings: Seq<Seq<char>>, s: Seq<char>, t: Seq<char>)
    requires
        s != t,
    ensures
        intern_handle(after_intern(strings, s), t) != intern_handle(strings, s),
{
    let once = after_intern(strings, s);
    lemma_intern_then_get(strings, s);
    lemma_intern_then_get(once, t);
    if intern_handle(once, t) == intern_handle(strings, s) {
        assert(once.len() <= after_intern(once, t).len());
        assert(after_intern(once, t)[intern_handle(strings, s)] == once[intern_handle(strings, s)]);
    }
}

/// The strings held after interning each of `ts` in turn.
pub open spec fn after_interns(strings: Seq<Seq<char>>, ts: Seq<Seq<char>>) -> Seq<Seq<char>>
    decreases ts.len(),
{
    if ts.len() == 0 {
        strings
    } else {
        after_intern(after_interns(strings, ts.drop_last()), ts.last())
    }
}

/// Interning keeps the strings held before, in place.
pub proof fn lemma_intern_keeps(strings: Seq<Seq<char>>, s: Seq<char>)
    ensures
        strings.is_prefix_of(after_intern(strings, s)),
{
}

/// Interning any number of further strings keeps every string held, in
/// place: a handle given out reads back its string after any later
/// interning.
pub proof fn lemma_interns_keep(strings: Seq<Seq<char>>, ts: Seq<Seq<char>>)
    ensures
        strings.is_prefix_of(after_interns(strings, ts)),
    decreases ts.len(),
{
    if ts.len() > 0 {
        lemma_interns_keep(strings, ts.drop_last());
        let mid = after_interns(strings, ts.drop_last());
        lemma_intern_keeps(mid, ts.last());
    }
}

/// The round trip: after interning `s` and then any strings `ts`, the
/// handle that `s` got still gives `s`.
pub proof fn lemma_handle_reads_back(strings: Seq<Seq<char>>, s: Seq<char>, ts: Seq<Seq<char>>)
    ensures
        0 <= intern_handle(strings, s) < after_interns(after_intern(strings, s), ts).len(),
        after_interns(after_intern(strings, s), ts)[intern_handle(strings, s)] == s,
{
    lemma_intern_then_get(strings, s);
    lemma_interns_keep(after_intern(strings, s), ts);
}

/// Handle to a string held by an [`Interner`].
#[derive(Debug, Clone, Copy, Hash, PartialEq, Eq, PartialOrd, Ord)]
pub struct InternedStr(pub usize);

/// Registry of interned strings. A string's handle is its position in
/// insertion order.
pub struct Interner {
    strings: Vec<String>,
}

impl Default for Interner {
    /// An empty interner.
    fn default() -> (r: Self)
        ensures
            r.wf(),
            r.strings() == Seq::<Seq<char>>::empty(),
    {
        Interner::new()
    }
}

impl Interner {
    /// The interned strings, in the order in which they were first interned.
    pub closed spec fn strings(&self) -> Seq<Seq<char>> {
        self.strings@.map_values(|s: String| s@)
    }

    /// No string is stored twice.
    pub closed spec fn wf(&self) -> bool {
        self.strings().no_duplicates()
    }

    /// Creates an empty interner.
    pub fn new() -> (r: Self)
        ensures
            r.wf(),
            r.strings() == Seq::<Seq<char>>::empty(),
    {
        Interner { strings: Vec::new() }
    }

    /// Returns the handle of `s`, storing `s` first if it was not interned
    /// yet. Interning the same string twice gives the same handle.
    pub fn intern(&mut self, s: &str) -> (r: InternedStr)
        requires
            old(self).wf(),
        ensures
            final(self).wf(),
            final(self).strings() == after_intern(old(self).strings(), s@),
            r.0 == intern_handle(old(self).strings(), s@),
            r.0 < final(self).strings().len(),
            final(self).strings()[r.0 as int] == s@,
            old(self).strings().is_prefix_of(final(self).strings()),
    {
        let owned: String = s.to_owned();
        let n = self.strings.len();
        let mut i: usize = 0;
        while i < n
            invariant
                n == self.strings.len(),
                0 <= i <= n,
                owned@ == s@,
                self.wf(),
                self.strings() == old(self).strings(),
                forall|j: int| 0 <= j < i ==> self.strings@[j]@ != s@,
            decreases n - i,
        {
            if self.strings[i] == owned {
                proof {
                    assert(self.strings()[i as int] == s@);
                    assert(self.strings().index_of(s@) == i) by {
                        let k = self.strings().index_of(s@);
                        if k < i {
                            assert(self.strings@[k]@ != s@);
                        }
                        if k > i {
                            assert(self.strings()[k] == self.strings()[i as int]);
                        }
                    }
                }
                return InternedStr(i);
            }
            i = i + 1;
        }
        proof {
            assert forall|j: int| 0 <= j < self.strings().len() implies self.strings()[j] != s@ by {
                assert(self.strings@[j]@ != s@);
            }
        }
        self.strings.push(owned);
        proof {
            assert(self.strings() =~= old(self).strings().push(s@));
        }
        InternedStr(n)
    }

    /// The number of strings held; the handles given out are those below.
    pub fn len(&self) -> (r: usize)
        ensures
            r == self.strings().len(),
    {
        self.strings.len()
    }

    /// Returns the string behind a handle given out by this interner.
    ///
    /// The handle must be one that this interner gave out.
    pub fn get_str(&self, handle: InternedStr) -> (r: &str)
        requires
            handle.0 < self.strings().len(),
        ensures
            r@ == self.strings()[handle.0 as int],
    {
        self.strings[handle.0].as_str()
    }
}

} // verus!
