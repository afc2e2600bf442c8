//! Counter-indexed, bitmap-tracked, fixed-capacity packet defragmenter.
//!
//! A `Fragged` is bound to a single logical stream: the counter is the only
//! cross-message discriminator, and a new counter recycles the slots at once,
//! even if the previous message never completed. This bounds memory to one
//! in-flight message per reassembler.

use vstd::prelude::*;
use vstd::set_lib::{lemma_int_range, lemma_len_subset, set_int_range};

verus! {

/// True iff bit `j` of `w` is set.
pub open spec fn nth_bit(w: u64, j: u64) -> bool {
    (w >> j) & 1 == 1
}

proof fn lemma_or_bit(h0: u64, no: u64, j: u64)
    requires
        no < 64,
        j < 64,
    ensures
        ((h0 | (1u64 << no)) >> j) & 1 == 1 <==> ((h0 >> j) & 1 == 1 || j == no),
{
    assert(((h0 | (1u64 << no)) >> j) & 1 == 1 <==> ((h0 >> j) & 1 == 1 || j
        == no)) by (bit_vector)
        requires
            no < 64,
            j < 64,
    ;
}

proof fn lemma_mask_bit(w: u64, cnt: u64, j: u64)
    requires
        1 <= cnt <= 64,
        j < cnt,
        w & (0xffffffffffffffffu64 >> ((64 - cnt) as u64)) == 0xffffffffffffffffu64 >> ((64
            - cnt) as u64),
    ensures
        (w >> j) & 1 == 1,
{
    assert((w >> j) & 1 == 1) by (bit_vector)
        requires
            1 <= cnt <= 64,
            j < cnt,
            w & (0xffffffffffffffffu64 >> ((64 - cnt) as u64)) == 0xffffffffffffffffu64 >> ((64
                - cnt) as u64),
    ;
}

proof fn lemma_bits_imply_mask(w: u64, cnt: u64)
    requires
        1 <= cnt <= 64,
        forall|j: u64| j < cnt ==> ((w >> j) & 1 == 1),
    ensures
        w & (0xffffffffffffffffu64 >> ((64 - cnt) as u64)) == 0xffffffffffffffffu64 >> ((64
            - cnt) as u64),
    decreases cnt,
{
    if cnt == 1 {
        assert((w >> 0u64) & 1 == 1);
        assert(w & (0xffffffffffffffffu64 >> 63u64) == 0xffffffffffffffffu64
            >> 63u64) by (bit_vector)
            requires
                (w >> 0u64) & 1 == 1,
        ;
    } else {
        lemma_bits_imply_mask(w, (cnt - 1) as u64);
        assert((w >> ((cnt - 1) as u64)) & 1 == 1);
        assert(w & (0xffffffffffffffffu64 >> ((64 - cnt) as u64)) == 0xffffffffffffffffu64 >> ((64
            - cnt) as u64)) by (bit_vector)
            requires
                2 <= cnt <= 64,
                w & (0xffffffffffffffffu64 >> ((64 - ((cnt - 1) as u64)) as u64))
                    == 0xffffffffffffffffu64 >> ((64 - ((cnt - 1) as u64)) as u64),
                (w >> ((cnt - 1) as u64)) & 1 == 1,
        ;
    }
}

/// Fast packet defragmenter.
pub struct Fragged<Fragment, const MAX_FRAGMENTS: usize> {
    have: u64,
    counter: u64,
    frags: Vec<Option<Fragment>>,
}

/// A fully reassembled message: exactly the claimed number of fragments, in
/// fragment-number order.
pub struct Assembled<Fragment> {
    frags: Vec<Fragment>,
}

impl<Fragment> Assembled<Fragment> {
    /// The fragments in fragment-number order.
    pub closed spec fn view(&self) -> Seq<Fragment> {
        self.frags@
    }

    /// Borrow the assembled fragments, in fragment-number order.
    pub fn as_ref(&self) -> (r: &Vec<Fragment>)
        ensures
            r@ == self@,
    {
        &self.frags
    }
}

impl<Fragment, const MAX_FRAGMENTS: usize> Fragged<Fragment, MAX_FRAGMENTS> {
    /// The counter of the message currently being assembled.
    pub closed spec fn spec_counter(&self) -> u64 {
        self.counter
    }

    /// The fragment slots; slot `j` holds the fragment with number `j`.
    pub closed spec fn slots(&self) -> Seq<Option<Fragment>> {
        self.frags@
    }

    /// Structural invariant: the bitmap tracks exactly which slots are live.
    pub closed spec fn wf(&self) -> bool {
        &&& MAX_FRAGMENTS <= 64
        &&& self.frags@.len() == MAX_FRAGMENTS
        &&& forall|j: u64|
            j < 64 ==> (#[trigger] nth_bit(self.have, j) <==> (j < MAX_FRAGMENTS && self.frags@[
            j as int] is Some))
    }

    /// A fresh reassembler: no fragments held, counter zero.
    pub fn new() -> (r: Self)
        requires
            MAX_FRAGMENTS <= 64,
        ensures
            r.wf(),
            r.spec_counter() == 0,
            r.slots() =~= Seq::new(MAX_FRAGMENTS as nat, |j: int| None::<Fragment>),
    {
        let mut frags: Vec<Option<Fragment>> = Vec::new();
        let mut i: usize = 0;
        while i < MAX_FRAGMENTS
            invariant
                i <= MAX_FRAGMENTS,
                frags@.len() == i,
                forall|j: int| 0 <= j < i ==> frags@[j] is None,
            decreases MAX_FRAGMENTS - i,
        {
            frags.push(None);
            i = i + 1;
        }
        proof {
            assert(forall|j: u64| j < 64 ==> ((0u64 >> j) & 1 != 1)) by (bit_vector);
        }
        Fragged { have: 0, counter: 0, frags }
    }

    /// Whether a fragment with these ordinals is accepted at all.
    pub open spec fn accepts(fragment_no: u8, fragment_count: u8) -> bool {
        fragment_no < fragment_count && fragment_count as usize <= MAX_FRAGMENTS
    }

    /// The slot contents after an accepted fragment is filed: a differing
    /// counter first empties every slot, then the fragment lands at its slot.
    pub open spec fn slots_after(
        self,
        counter: u64,
        fragment: Fragment,
        fragment_no: u8,
    ) -> Seq<Option<Fragment>> {
        let base = if counter == self.spec_counter() {
            self.slots()
        } else {
            Seq::new(MAX_FRAGMENTS as nat, |j: int| None::<Fragment>)
        };
        base.update(fragment_no as int, Some(fragment))
    }

    /// Whether filing this fragment completes the message: every slot below
    /// `fragment_count` is then live.
    pub open spec fn completes(
        self,
        counter: u64,
        fragment: Fragment,
        fragment_no: u8,
        fragment_count: u8,
    ) -> bool {
        forall|j: int|
            0 <= j < fragment_count ==> self.slots_after(counter, fragment, fragment_no)[j]
                is Some
    }

    /// Add a fragment and attempt reassembly.
    ///
    /// Inputs with `fragment_no >= fragment_count` or with more than
    /// `MAX_FRAGMENTS` total fragments are rejected without effect. A counter
    /// different from the current one drops every held fragment and begins a
    /// fresh assembly. The new fragment is stored at its slot (re-delivery
    /// within one counter overwrites), and if all `fragment_count` slots are
    /// now live the whole message is returned and the slots are cleared.
    pub fn assemble(
        &mut self,
        counter: u64,
        fragment: Fragment,
        fragment_no: u8,
        fragment_count: u8,
    ) -> (r: Option<Assembled<Fragment>>)
        requires
            old(self).wf(),
        ensures
            final(self).wf(),
            !Self::accepts(fragment_no, fragment_count) ==> r is None && *final(self) == *old(
                self,
            ),
            Self::accepts(fragment_no, fragment_count) ==> final(self).spec_counter() == counter,
            Self::accepts(fragment_no, fragment_count) && old(self).completes(
                counter,
                fragment,
                fragment_no,
                fragment_count,
            ) ==> {
                &&& r matches Some(a) && a@ == Seq::new(
                    fragment_count as nat,
                    |j: int| old(self).slots_after(counter, fragment, fragment_no)[j]->0,
                )
                &&& final(self).slots() =~= Seq::new(
                    MAX_FRAGMENTS as nat,
                    |j: int| None::<Fragment>,
                )
            },
            Self::accepts(fragment_no, fragment_count) && !old(self).completes(
                counter,
                fragment,
                fragment_no,
                fragment_count,
            ) ==> r is None && final(self).slots() == old(self).slots_after(
                counter,
                fragment,
                fragment_no,
            ),
    {
        if fragment_no < fragment_count && (fragment_count as usize) <= MAX_FRAGMENTS {
            if counter != self.counter {
                self.counter = counter;
                // Drop all previously held fragments: a new counter always
                // starts from an empty slot array.
                let mut i: usize = 0;
                while i < MAX_FRAGMENTS
                    invariant
                        i <= MAX_FRAGMENTS,
                        self.counter == counter,
                        self.frags@.len() == MAX_FRAGMENTS,
                        forall|j: int| 0 <= j < i ==> self.frags@[j] is None,
                    decreases MAX_FRAGMENTS - i,
                {
                    let _ = self.frags[i].take();
                    i = i + 1;
                }
                self.have = 0;
                proof {
                    assert(forall|j: u64| j < 64 ==> ((0u64 >> j) & 1 != 1)) by (bit_vector);
                    assert(self.frags@ =~= Seq::new(
                        MAX_FRAGMENTS as nat,
                        |j: int| None::<Fragment>,
                    ));
                    assert(self.wf());
                }
            }
            proof {
                assert(self.wf());
            }

            let ghost base = self.frags@;
            let h0 = self.have;
            self.frags[fragment_no as usize] = Some(fragment);
            let ghost stored = self.frags@;

            let want: u64 = 0xffffffffffffffffu64 >> ((64 - fragment_count as u64) as u64);
            let have: u64 = h0 | (1u64 << (fragment_no as u64));
            proof {
                let no = fragment_no as u64;
                // The bitmap after this insertion tracks exactly the live slots.
                assert forall|j: u64| j < 64 implies (#[trigger] nth_bit(have, j) <==> (j
                    < MAX_FRAGMENTS && stored[j as int] is Some)) by {
                    lemma_or_bit(h0, no, j);
                    assert(nth_bit(h0, j) <==> (j < MAX_FRAGMENTS && base[j as int] is Some));
                }
            }
            if (have & want) == want {
                proof {
                    let cnt = fragment_count as u64;
                    assert forall|j: int| 0 <= j < fragment_count implies stored[j] is Some by {
                        lemma_mask_bit(have, cnt, j as u64);
                        assert(nth_bit(have, j as u64));
                    }
                }
                // All fragments of the message are here: hand them out in
                // fragment-number order and clear every slot.
                let mut out: Vec<Fragment> = Vec::new();
                let mut i: usize = 0;
                while i < fragment_count as usize
                    invariant
                        i <= fragment_count as usize,
                        fragment_count as usize <= MAX_FRAGMENTS,
                        self.counter == counter,
                        self.frags@.len() == MAX_FRAGMENTS,
                        forall|j: int| 0 <= j < fragment_count ==> stored[j] is Some,
                        out@ =~= Seq::new(i as nat, |j: int| stored[j]->0),
                        forall|j: int| 0 <= j < i ==> self.frags@[j] is None,
                        forall|j: int| i <= j < MAX_FRAGMENTS ==> self.frags@[j] == stored[j],
                    decreases fragment_count as usize - i,
                {
                    proof {
                        assert(self.frags@[i as int] == stored[i as int]);
                        assert(stored[i as int] is Some);
                    }
                    let x = self.frags[i].take();
                    out.push(x.unwrap());
                    i = i + 1;
                }
                while i < MAX_FRAGMENTS
                    invariant
                        i <= MAX_FRAGMENTS,
                        self.counter == counter,
                        self.frags@.len() == MAX_FRAGMENTS,
                        forall|j: int| 0 <= j < i ==> self.frags@[j] is None,
                        forall|j: int| i <= j < MAX_FRAGMENTS ==> self.frags@[j] == stored[j],
                    decreases MAX_FRAGMENTS - i,
                {
                    let _ = self.frags[i].take();
                    i = i + 1;
                }
                self.have = 0;
                proof {
                    assert(forall|j: u64| j < 64 ==> ((0u64 >> j) & 1 != 1)) by (bit_vector);
                    assert(self.spec_counter() == counter);
                    assert(self.frags@ =~= Seq::new(
                        MAX_FRAGMENTS as nat,
                        |j: int| None::<Fragment>,
                    ));
                    assert(out@ == Seq::new(fragment_count as nat, |j: int| stored[j]->0));
                    assert(stored == (if counter == old(self).spec_counter() {
                        old(self).slots()
                    } else {
                        Seq::new(MAX_FRAGMENTS as nat, |j: int| None::<Fragment>)
                    }).update(fragment_no as int, Some(fragment)));
                }
                return Some(Assembled { frags: out });
            } else {
                self.have = have;
                proof {
                    let cnt = fragment_count as u64;
                    assert(!(forall|j: int| 0 <= j < fragment_count ==> stored[j] is Some)) by {
                        if forall|j: int| 0 <= j < fragment_count ==> stored[j] is Some {
                            assert forall|j: u64| j < cnt implies ((have >> j) & 1 == 1) by {
                                assert(stored[j as int] is Some);
                                assert(nth_bit(have, j));
                            }
                            lemma_bits_imply_mask(have, cnt);
                            assert(false);
                        }
                    }
                }
                return None;
            }
        }
        None
    }
}

/// Reassembler completeness: when every fragment of an N-fragment message
/// except number `missing` is already held under the message's counter,
/// filing the missing fragment completes the message; `assemble` then
/// returns the N fragments in fragment-number order (by its contract).
pub proof fn lemma_reassembly_completes<Fragment, const MAX_FRAGMENTS: usize>(
    state: Fragged<Fragment, MAX_FRAGMENTS>,
    counter: u64,
    fragment: Fragment,
    missing: u8,
    fragment_count: u8,
)
    requires
        state.wf(),
        state.spec_counter() == counter,
        Fragged::<Fragment, MAX_FRAGMENTS>::accepts(missing, fragment_count),
        forall|j: int|
            0 <= j < fragment_count && j != missing ==> state.slots()[j] is Some,
    ensures
        state.completes(counter, fragment, missing, fragment_count),
{
    assert forall|j: int| 0 <= j < fragment_count implies state.slots_after(
        counter,
        fragment,
        missing,
    )[j] is Some by {
        if j != missing {
            assert(state.slots()[j] is Some);
        }
    }
}

/// Reassembler incompleteness: as long as at least one other fragment of
/// the message is still missing, filing a fragment does not complete the
/// message; `assemble` then returns nothing and only stores the fragment
/// (by its contract).
pub proof fn lemma_reassembly_incomplete<Fragment, const MAX_FRAGMENTS: usize>(
    state: Fragged<Fragment, MAX_FRAGMENTS>,
    counter: u64,
    fragment: Fragment,
    fragment_no: u8,
    fragment_count: u8,
    missing: u8,
)
    requires
        state.wf(),
        state.spec_counter() == counter,
        Fragged::<Fragment, MAX_FRAGMENTS>::accepts(fragment_no, fragment_count),
        missing < fragment_count,
        missing != fragment_no,
        state.slots()[missing as int] is None,
    ensures
        !state.completes(counter, fragment, fragment_no, fragment_count),
{
    assert(state.slots_after(counter, fragment, fragment_no)[missing as int] is None);
}

/// Reassembler reset: a fragment arriving under a counter that differs
/// from the current one begins a fresh assembly; whatever was held before
/// plays no part in the new slot contents.
pub proof fn lemma_reassembly_reset<Fragment, const MAX_FRAGMENTS: usize>(
    state: Fragged<Fragment, MAX_FRAGMENTS>,
    counter: u64,
    fragment: Fragment,
    fragment_no: u8,
)
    requires
        state.wf(),
        state.spec_counter() != counter,
        (fragment_no as usize) < MAX_FRAGMENTS,
    ensures
        state.slots_after(counter, fragment, fragment_no) =~= Seq::new(
            MAX_FRAGMENTS as nat,
            |j: int| None::<Fragment>,
        ).update(fragment_no as int, Some(fragment)),
        forall|j: int|
            0 <= j < MAX_FRAGMENTS && j != fragment_no ==> state.slots_after(
                counter,
                fragment,
                fragment_no,
            )[j] is None,
{
}

/// The slot contents of an `m`-slot reassembler that started empty and has
/// filed `frags[i]` under ordinal `perm[i]` for each `i`, one counter
/// throughout.
pub open spec fn filled_slots<Fragment>(m: nat, frags: Seq<Fragment>, perm: Seq<u8>) -> Seq<
    Option<Fragment>,
>
    recommends
        frags.len() == perm.len(),
    decreases perm.len(),
{
    if perm.len() == 0 {
        Seq::new(m, |j: int| None)
    } else {
        filled_slots(m, frags.drop_last(), perm.drop_last()).update(
            perm.last() as int,
            Some(frags.last()),
        )
    }
}

/// A slot of `filled_slots` is live exactly when its ordinal was filed.
pub proof fn lemma_filled_slot_content<Fragment>(
    m: nat,
    frags: Seq<Fragment>,
    perm: Seq<u8>,
    j: int,
)
    requires
        m <= 256,
        frags.len() == perm.len(),
        forall|i: int| 0 <= i < perm.len() ==> (#[trigger] perm[i]) < m,
        0 <= j < m,
    ensures
        filled_slots(m, frags, perm).len() == m,
        filled_slots(m, frags, perm)[j] is Some <==> perm.contains(j as u8),
    decreases perm.len(),
{
    if perm.len() == 0 {
        assert(!perm.contains(j as u8));
    } else {
        lemma_filled_slot_content(m, frags.drop_last(), perm.drop_last(), j);
        if j == perm.last() as int {
            assert(perm[perm.len() - 1] == j as u8);
            assert(perm.contains(j as u8));
        } else {
            assert(filled_slots(m, frags, perm)[j] == filled_slots(
                m,
                frags.drop_last(),
                perm.drop_last(),
            )[j]);
            if perm.drop_last().contains(j as u8) {
                let i = choose|i: int|
                    0 <= i < perm.drop_last().len() && perm.drop_last()[i] == j as u8;
                assert(perm[i] == j as u8);
            }
            if perm.contains(j as u8) {
                let i = choose|i: int| 0 <= i < perm.len() && perm[i] == j as u8;
                if i == perm.len() - 1 {
                    assert(perm.last() == j as u8);
                    assert(perm.last() as int == j);
                    assert(false);
                }
                assert(perm.drop_last()[i] == j as u8);
                assert(perm.drop_last().contains(j as u8));
            }
        }
    }
}

/// A duplicate-free sequence of `n` ordinals below `n` names each ordinal.
proof fn lemma_distinct_ordinals_cover(perm: Seq<u8>, n: u8)
    requires
        perm.no_duplicates(),
        perm.len() == n,
        forall|i: int| 0 <= i < perm.len() ==> (#[trigger] perm[i]) < n,
    ensures
        forall|j: u8| j < n ==> perm.contains(j),
{
    let ints = perm.map_values(|x: u8| x as int);
    assert forall|a: int, b: int| 0 <= a < b < ints.len() implies ints[a] != ints[b] by {
        assert(perm[a] != perm[b]);
    }
    ints.unique_seq_to_set();
    let range = set_int_range(0, n as int);
    lemma_int_range(0, n as int);
    assert(ints.to_set().subset_of(range)) by {
        assert forall|x: int| ints.to_set().contains(x) implies range.contains(x) by {
            let i = choose|i: int| 0 <= i < ints.len() && ints[i] == x;
            assert(perm[i] < n);
        }
    }
    assert forall|j: u8| j < n implies perm.contains(j) by {
        if !perm.contains(j) {
            // then the n distinct ordinals fit in a range of n - 1 values
            assert(!ints.to_set().contains(j as int)) by {
                if ints.to_set().contains(j as int) {
                    let i = choose|i: int| 0 <= i < ints.len() && ints[i] == j as int;
                    assert(perm[i] == j);
                }
            }
            let smaller = range.remove(j as int);
            assert(ints.to_set().subset_of(smaller));
            lemma_len_subset(ints.to_set(), smaller);
            assert(smaller.len() == n - 1);
            assert(false);
        }
    }
}

/// Reassembler completeness over a whole exchange: when the fragments of an
/// N-fragment message are filed one by one under one counter, each ordinal
/// exactly once and in any order, the message completes exactly at the last
/// fragment. By `assemble`'s contract the whole message is then returned,
/// in fragment-number order, and every earlier call returned nothing.
pub proof fn lemma_reassembly_exactly_once<Fragment, const MAX_FRAGMENTS: usize>(
    s: Fragged<Fragment, MAX_FRAGMENTS>,
    counter: u64,
    frags: Seq<Fragment>,
    perm: Seq<u8>,
    k: int,
    fragment_count: u8,
)
    requires
        s.wf(),
        s.spec_counter() == counter,
        1 <= fragment_count,
        fragment_count as usize <= MAX_FRAGMENTS,
        perm.no_duplicates(),
        perm.len() == fragment_count,
        forall|i: int| 0 <= i < perm.len() ==> (#[trigger] perm[i]) < fragment_count,
        frags.len() == perm.len(),
        0 <= k < perm.len(),
        // the reassembler currently holds exactly the fragments filed
        // before step k
        s.slots() == filled_slots::<Fragment>(
            MAX_FRAGMENTS as nat,
            frags.take(k),
            perm.take(k),
        ),
    ensures
        s.completes(counter, frags[k], perm[k], fragment_count) <==> k == perm.len() - 1,
{
    let m = MAX_FRAGMENTS as nat;
    let stored = s.slots_after(counter, frags[k], perm[k]);
    assert(stored == s.slots().update(perm[k] as int, Some(frags[k])));
    assert(forall|i: int| 0 <= i < perm.take(k).len() ==> (#[trigger] perm.take(k)[i]) < m);
    if k == perm.len() - 1 {
        lemma_distinct_ordinals_cover(perm, fragment_count);
        assert forall|j: int| 0 <= j < fragment_count implies stored[j] is Some by {
            if j != perm[k] {
                assert(perm.contains(j as u8));
                let i = choose|i: int| 0 <= i < perm.len() && perm[i] == j as u8;
                assert(i != k);
                assert(perm.take(k)[i] == j as u8);
                assert(perm.take(k).contains(j as u8));
                lemma_filled_slot_content(m, frags.take(k), perm.take(k), j);
            }
        }
    } else {
        // the fragment of the final step is still missing
        let j = perm[perm.len() - 1];
        assert(j != perm[k]);
        lemma_filled_slot_content(m, frags.take(k), perm.take(k), j as int);
        assert(!perm.take(k).contains(j)) by {
            if perm.take(k).contains(j) {
                let i = choose|i: int| 0 <= i < perm.take(k).len() && perm.take(k)[i] == j;
                assert(perm[i] == perm[perm.len() - 1]);
                assert(false);
            }
        }
        assert(stored[j as int] is None);
        assert(!s.completes(counter, frags[k], perm[k], fragment_count));
    }
}

} // verus!
