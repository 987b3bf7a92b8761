//! The symbol interning table: deduplicates byte content into stable integer
//! handles and provides lossless reverse lookup.

use vstd::pervasive::unreached;
use vstd::prelude::*;
use vstd::slice::slice_to_vec;

verus! {

/// An opaque handle identifying one distinct interned byte sequence.
/// Handles are assigned densely, starting at 0; handle 0 is permanently
/// bound to the empty byte sequence.
pub type Symbol = usize;

/// The index of the first entry of `t` equal to `x`, if any.
pub open spec fn spec_find(t: Seq<Seq<u8>>, x: Seq<u8>) -> Option<int>
    decreases t.len(),
{
    if t.len() == 0 {
        None
    } else if t[0] == x {
        Some(0int)
    } else {
        match spec_find(t.drop_first(), x) {
            Some(i) => Some(i + 1),
            None => None,
        }
    }
}

/// The table after interning `x`, paired with the handle returned for `x`:
/// an existing entry is reused, otherwise `x` is appended and its index is
/// the new handle.
pub open spec fn spec_intern(t: Seq<Seq<u8>>, x: Seq<u8>) -> (Seq<Seq<u8>>, int) {
    match spec_find(t, x) {
        Some(i) => (t, i),
        None => (t.push(x), t.len() as int),
    }
}

/// What resolving handle `s` against table `t` yields.
pub open spec fn spec_resolve(t: Seq<Seq<u8>>, s: int) -> Option<Seq<u8>> {
    if 0 <= s < t.len() {
        Some(t[s])
    } else {
        None
    }
}

/// The separator bytes actually inserted: none supplied means no inserted
/// bytes, which coincides with an empty separator.
pub open spec fn spec_sep(sep: Option<&[u8]>) -> Seq<u8> {
    match sep {
        Some(bytes) => bytes@,
        None => Seq::empty(),
    }
}

/// The contents of `t` behind each handle of `symbols`, in order.
pub open spec fn spec_resolve_all(t: Seq<Seq<u8>>, symbols: Seq<Symbol>) -> Seq<Seq<u8>> {
    symbols.map_values(|s: Symbol| t[s as int])
}

/// `parts` concatenated in order, with `sep` between consecutive parts but
/// never before the first or after the last.
pub open spec fn spec_concat(parts: Seq<Seq<u8>>, sep: Seq<u8>) -> Seq<u8>
    decreases parts.len(),
{
    if parts.len() == 0 {
        Seq::empty()
    } else if parts.len() == 1 {
        parts[0]
    } else {
        spec_concat(parts.drop_last(), sep) + sep + parts.last()
    }
}

/// No two entries of `t` hold the same content.
pub open spec fn distinct_entries(t: Seq<Seq<u8>>) -> bool {
    forall|i: int, j: int| 0 <= i < j < t.len() ==> t[i] != t[j]
}

/// `spec_find` returns the index of the first matching entry, and `None`
/// exactly when no entry matches.
pub proof fn lemma_spec_find_characterizes(t: Seq<Seq<u8>>, x: Seq<u8>)
    ensures
        match spec_find(t, x) {
            Some(i) => 0 <= i < t.len() && t[i] == x && (forall|j: int| 0 <= j < i ==> t[j] != x),
            None => forall|j: int| 0 <= j < t.len() ==> t[j] != x,
        },
    decreases t.len(),
{
    if t.len() == 0 {
    } else if t[0] == x {
    } else {
        lemma_spec_find_characterizes(t.drop_first(), x);
        match spec_find(t.drop_first(), x) {
            Some(i) => {
                assert(t.drop_first()[i] == t[i + 1]);
                assert forall|j: int| 0 <= j < i + 1 implies t[j] != x by {
                    if j > 0 {
                        assert(t.drop_first()[j - 1] == t[j]);
                    }
                }
            },
            None => {
                assert forall|j: int| 0 <= j < t.len() implies t[j] != x by {
                    if j > 0 {
                        assert(t.drop_first()[j - 1] == t[j]);
                    }
                }
            },
        }
    }
}

/// If `t[i]` is the first entry equal to `x`, then `spec_find` returns `i`.
pub proof fn lemma_spec_find_first(t: Seq<Seq<u8>>, x: Seq<u8>, i: int)
    requires
        0 <= i < t.len(),
        t[i] == x,
        forall|j: int| 0 <= j < i ==> t[j] != x,
    ensures
        spec_find(t, x) == Some(i),
    decreases t.len(),
{
    if i == 0 {
    } else {
        assert(t.drop_first()[i - 1] == t[i]);
        assert forall|j: int| 0 <= j < i - 1 implies t.drop_first()[j] != x by {
            assert(t.drop_first()[j] == t[j + 1]);
        }
        lemma_spec_find_first(t.drop_first(), x, i - 1);
    }
}

/// In a table with distinct entries, `spec_find` locates any present entry
/// at its own index.
pub proof fn lemma_spec_find_present(t: Seq<Seq<u8>>, x: Seq<u8>, i: int)
    requires
        distinct_entries(t),
        0 <= i < t.len(),
        t[i] == x,
    ensures
        spec_find(t, x) == Some(i),
{
    lemma_spec_find_characterizes(t, x);
    match spec_find(t, x) {
        Some(k) => {
            if k < i {
                assert(t[k] == t[i]);
            }
        },
        None => {
            assert(t[i] == x);
        },
    }
}

/// Interning grows the table by at most one entry, places the interned
/// content at the returned handle, and never renumbers or invalidates a
/// prior handle.
pub proof fn lemma_intern_preserves_entries(t: Seq<Seq<u8>>, x: Seq<u8>)
    ensures
        ({
            let (t1, s) = spec_intern(t, x);
            &&& 0 <= s < t1.len()
            &&& t1[s] == x
            &&& t.len() <= t1.len() <= t.len() + 1
            &&& forall|j: int| 0 <= j < t.len() ==> t1[j] == t[j]
        }),
{
    lemma_spec_find_characterizes(t, x);
}

/// Idempotence: interning the same byte content a second time returns the
/// same handle as the first call and leaves the table unchanged.
pub proof fn lemma_intern_idempotent(t: Seq<Seq<u8>>, x: Seq<u8>)
    ensures
        ({
            let (t1, s1) = spec_intern(t, x);
            let (t2, s2) = spec_intern(t1, x);
            &&& t2 == t1
            &&& s2 == s1
        }),
{
    lemma_spec_find_characterizes(t, x);
    match spec_find(t, x) {
        Some(i) => {},
        None => {
            let t1 = t.push(x);
            assert forall|j: int| 0 <= j < t.len() implies t1[j] != x by {
                assert(t1[j] == t[j]);
            }
            lemma_spec_find_first(t1, x, t.len() as int);
        },
    }
}

/// Injectivity: interning two distinct byte contents, one after the other,
/// yields distinct handles.
pub proof fn lemma_intern_injective(t: Seq<Seq<u8>>, x: Seq<u8>, y: Seq<u8>)
    requires
        x != y,
    ensures
        ({
            let (t1, sx) = spec_intern(t, x);
            let (t2, sy) = spec_intern(t1, y);
            sx != sy
        }),
{
    let (t1, sx) = spec_intern(t, x);
    let (t2, sy) = spec_intern(t1, y);
    lemma_intern_preserves_entries(t, x);
    lemma_intern_preserves_entries(t1, y);
    assert(t2[sx] == x);
    assert(t2[sy] == y);
}

/// Round-trip: resolving the handle that intern returned yields exactly the
/// content that was interned.
pub proof fn lemma_resolve_intern(t: Seq<Seq<u8>>, x: Seq<u8>)
    ensures
        ({
            let (t1, s) = spec_intern(t, x);
            spec_resolve(t1, s) == Some(x)
        }),
{
    lemma_intern_preserves_entries(t, x);
}

/// Probing tracks interning: content never interned is absent from `find`,
/// and immediately after interning, `find` returns the handle that intern
/// returned.
pub proof fn lemma_find_after_intern(t: Seq<Seq<u8>>, x: Seq<u8>)
    ensures
        !t.contains(x) ==> spec_find(t, x) is None,
        ({
            let (t1, s) = spec_intern(t, x);
            spec_find(t1, x) == Some(s)
        }),
{
    lemma_spec_find_characterizes(t, x);
    match spec_find(t, x) {
        Some(i) => {
            assert(t.contains(x));
        },
        None => {
            let t1 = t.push(x);
            assert forall|j: int| 0 <= j < t.len() implies t1[j] != x by {
                assert(t1[j] == t[j]);
            }
            lemma_spec_find_first(t1, x, t.len() as int);
        },
    }
}

/// Rebuilding from persisted content: interning entry `i` of a table with
/// distinct entries into a table that holds exactly entries `0..i` extends
/// it to entries `0..i + 1` and reproduces handle `i`. The forward index is
/// therefore reconstructible purely from backing-store order.
pub proof fn lemma_rebuild_in_order(t: Seq<Seq<u8>>, i: int)
    requires
        distinct_entries(t),
        0 <= i < t.len(),
    ensures
        spec_intern(t.take(i), t[i]) == (t.take(i + 1), i),
{
    lemma_spec_find_characterizes(t.take(i), t[i]);
    match spec_find(t.take(i), t[i]) {
        Some(k) => {
            assert(t.take(i)[k] == t[k]);
        },
        None => {
            assert(t.take(i).push(t[i]) =~= t.take(i + 1));
        },
    }
}

/// Appends the bytes of `src` to `dst`.
fn extend_bytes(dst: &mut Vec<u8>, src: &[u8])
    ensures
        final(dst)@ == old(dst)@ + src@,
{
    proof {
        assert(dst@ =~= dst@ + src@.subrange(0, 0));
    }
    let mut i: usize = 0;
    while i < src.len()
        invariant
            i <= src@.len(),
            dst@ == old(dst)@ + src@.subrange(0, i as int),
        decreases src@.len() - i,
    {
        dst.push(src[i]);
        proof {
            assert(dst@ =~= old(dst)@ + src@.subrange(0, i + 1));
        }
        i += 1;
    }
    proof {
        assert(old(dst)@ + src@.subrange(0, src@.len() as int) =~= old(dst)@ + src@);
    }
}

/// Compares two byte slices for content equality.
fn bytes_equal(a: &[u8], b: &[u8]) -> (r: bool)
    ensures
        r == (a@ == b@),
{
    if a.len() != b.len() {
        return false;
    }
    let mut i: usize = 0;
    while i < a.len()
        invariant
            i <= a@.len(),
            a@.len() == b@.len(),
            forall|j: int| 0 <= j < i ==> a@[j] == b@[j],
        decreases a@.len() - i,
    {
        if a[i] != b[i] {
            return false;
        }
        i += 1;
    }
    proof {
        assert(a@ =~= b@);
    }
    true
}

/// The symbol interning table. It owns one copy of every distinct byte
/// sequence ever interned; the handle of a sequence is its index in that
/// append-only store.
#[derive(Clone, Debug)]
pub struct SymbolTable {
    entries: Vec<Vec<u8>>,
}

impl View for SymbolTable {
    type V = Seq<Seq<u8>>;

    closed spec fn view(&self) -> Seq<Seq<u8>> {
        Seq::new(self.entries@.len(), |i: int| self.entries@[i]@)
    }
}

impl SymbolTable {
    /// Well-formed: all entries distinct, and handle 0 bound to the empty
    /// byte sequence. Every table reachable through this interface satisfies
    /// this, from construction onward.
    pub open spec fn wf(self) -> bool {
        &&& distinct_entries(self@)
        &&& self@.len() >= 1
        &&& self@[0] == Seq::<u8>::empty()
    }

    /// Constructs a fresh table holding exactly one entry: handle 0, bound
    /// to the empty byte sequence.
    pub fn new() -> (r: Self)
        ensures
            r.wf(),
            r@.len() == 1,
            r@[0] == Seq::<u8>::empty(),
    {
        let mut table = SymbolTable { entries: Vec::new() };
        let empty: Vec<u8> = Vec::new();
        table.intern(empty.as_slice());
        table
    }

    /// Pure lookup: the handle previously assigned to `contents`, if any.
    /// Never mutates the table.
    pub fn find(&self, contents: &[u8]) -> (r: Option<Symbol>)
        ensures
            r is Some <==> spec_find(self@, contents@) is Some,
            r matches Some(s) ==> spec_find(self@, contents@) == Some(s as int),
    {
        let n = self.entries.len();
        let mut k: usize = 0;
        while k < n
            invariant
                n == self@.len(),
                k <= n,
                forall|j: int| 0 <= j < k ==> self@[j] != contents@,
            decreases n - k,
        {
            if bytes_equal(self.entries[k].as_slice(), contents) {
                proof {
                    lemma_spec_find_first(self@, contents@, k as int);
                }
                return Some(k);
            }
            k += 1;
        }
        proof {
            lemma_spec_find_characterizes(self@, contents@);
        }
        None
    }

    /// Identical lookup to `find`, for call sites that have already
    /// established that `contents` was interned; that obligation is the
    /// precondition, so absence cannot occur here.
    pub fn must_find(&self, contents: &[u8]) -> (r: Symbol)
        requires
            self@.contains(contents@),
        ensures
            spec_find(self@, contents@) == Some(r as int),
            r < self@.len(),
            self@[r as int] == contents@,
    {
        proof {
            lemma_spec_find_characterizes(self@, contents@);
        }
        match self.find(contents) {
            Some(symbol) => symbol,
            None => unreached(),
        }
    }

    /// A view over the table's owned copy of the content behind `symbol`,
    /// or `None` if `symbol` is outside the assigned range.
    pub fn resolve(&self, symbol: Symbol) -> (r: Option<&[u8]>)
        ensures
            symbol < self@.len() ==> r is Some && r->Some_0@ == self@[symbol as int],
            symbol >= self@.len() ==> r is None,
            (match r {
                Some(bytes) => spec_resolve(self@, symbol as int) == Some(bytes@),
                None => spec_resolve(self@, symbol as int) is None,
            }),
    {
        if symbol < self.entries.len() {
            Some(self.entries[symbol].as_slice())
        } else {
            None
        }
    }

    /// Returns the handle already assigned to `contents`, or assigns the
    /// next sequential handle, copying `contents` into the table's owned
    /// storage. Total and idempotent; no prior handle is ever renumbered.
    pub fn intern(&mut self, contents: &[u8]) -> (r: Symbol)
        ensures
            final(self)@ == spec_intern(old(self)@, contents@).0,
            r as int == spec_intern(old(self)@, contents@).1,
            r < final(self)@.len(),
            final(self)@[r as int] == contents@,
            old(self).wf() ==> final(self).wf(),
    {
        proof {
            lemma_spec_find_characterizes(old(self)@, contents@);
        }
        match self.find(contents) {
            Some(symbol) => symbol,
            None => {
                let symbol = self.entries.len();
                self.entries.push(slice_to_vec(contents));
                proof {
                    assert(self@ =~= old(self)@.push(contents@));
                    if old(self).wf() {
                        assert forall|i: int, j: int| 0 <= i < j < self@.len() implies self@[i]
                            != self@[j] by {
                            if j < old(self)@.len() {
                                assert(old(self)@[i] != old(self)@[j]);
                            } else {
                                assert(old(self)@[i] != contents@);
                            }
                        }
                    }
                }
                symbol
            },
        }
    }

    /// Resolves each handle of `symbols` in order, concatenates the
    /// contents with the separator's bytes between consecutive parts, and
    /// interns the resulting sequence like any other content. An empty
    /// `symbols` therefore yields handle 0, and a single handle comes back
    /// unchanged.
    pub fn coagulate(&mut self, symbols: &[Symbol], with: Option<&[u8]>) -> (r: Symbol)
        requires
            old(self).wf(),
            forall|k: int| 0 <= k < symbols@.len() ==> symbols@[k] < old(self)@.len(),
        ensures
            final(self).wf(),
            ({
                let cat = spec_concat(spec_resolve_all(old(self)@, symbols@), spec_sep(with));
                &&& final(self)@ == spec_intern(old(self)@, cat).0
                &&& r as int == spec_intern(old(self)@, cat).1
                &&& r < final(self)@.len()
                &&& final(self)@[r as int] == cat
            }),
            symbols@.len() == 0 ==> r == 0,
            symbols@.len() == 1 ==> r == symbols@[0],
    {
        let ghost parts = spec_resolve_all(old(self)@, symbols@);
        let ghost sep = spec_sep(with);
        let mut contents: Vec<u8> = Vec::new();
        let mut i: usize = 0;
        while i < symbols.len()
            invariant
                i <= symbols@.len(),
                *self == *old(self),
                self.wf(),
                forall|k: int| 0 <= k < symbols@.len() ==> symbols@[k] < self@.len(),
                parts == spec_resolve_all(self@, symbols@),
                sep == spec_sep(with),
                contents@ == (if i == 0 {
                    Seq::<u8>::empty()
                } else if i < symbols@.len() {
                    spec_concat(parts.take(i as int), sep) + sep
                } else {
                    spec_concat(parts, sep)
                }),
            decreases symbols@.len() - i,
        {
            let part = match self.resolve(symbols[i]) {
                Some(part) => part,
                None => unreached(),
            };
            extend_bytes(&mut contents, part);
            proof {
                assert(parts.take(i + 1).drop_last() =~= parts.take(i as int));
                assert(parts.take(i + 1).last() == parts[i as int]);
                if i == 0 {
                    assert(Seq::<u8>::empty() + part@ =~= parts.take(1)[0]);
                }
            }
            if i < symbols.len() - 1 {
                if let Some(separator) = with {
                    extend_bytes(&mut contents, separator);
                } else {
                    proof {
                        assert(contents@ + sep =~= contents@);
                    }
                }
            } else {
                proof {
                    assert(parts.take(symbols@.len() as int) =~= parts);
                }
            }
            i += 1;
        }
        let r = self.intern(contents.as_slice());
        proof {
            if symbols@.len() == 0 {
                lemma_spec_find_present(old(self)@, Seq::<u8>::empty(), 0);
            }
            if symbols@.len() == 1 {
                assert(parts[0] == old(self)@[symbols@[0] as int]);
                lemma_spec_find_present(old(self)@, parts[0], symbols@[0] as int);
            }
        }
        r
    }
}

impl Default for SymbolTable {
    /// A fresh table, exactly as `new` builds it: handle 0 bound to the
    /// empty byte sequence.
    fn default() -> (r: Self)
        ensures
            r.wf(),
            r@.len() == 1,
            r@[0] == Seq::<u8>::empty(),
    {
        Self::new()
    }
}

} // verus!
