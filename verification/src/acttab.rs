//! The packed action table.
//!
//! Every parser state owns two rows of `(lookahead, action)` pairs. All rows
//! are overlaid in one flat array: a row is stored at an offset, and the entry
//! for lookahead `lh` lives in slot `offset + lh`. A slot remembers the
//! lookahead it was written for, so a lookup that lands on a slot written for
//! another lookahead is recognised as a miss.

use vstd::prelude::*;

verus! {

/// One cell of a row: the action to take on a given lookahead.
#[derive(Clone, Copy, Debug, PartialEq, Eq, Structural)]
pub struct LookaheadAction {
    pub lookahead: usize,
    pub action: usize,
}

/// The row of a single state, in the order in which its cells were added.
#[derive(Debug)]
pub struct ActionSet {
    pub a_lookahead: Vec<LookaheadAction>,
}

/// The flat table under construction; `None` marks a free slot.
#[derive(Debug)]
pub struct ActTab {
    pub a_action: Vec<Option<LookaheadAction>>,
}

/// Largest table index that the packer can address.
pub const MAX_TABLE_INDEX: usize = 0x7fff_ffff;

/// The lookaheads of a row never decrease from one cell to the next.
pub open spec fn row_sorted(row: Seq<LookaheadAction>) -> bool {
    forall|a: int, b: int| 0 <= a <= b < row.len() ==> row[a].lookahead <= row[b].lookahead
}

/// Some cell of the row is for lookahead `lh`.
pub open spec fn row_has(row: Seq<LookaheadAction>, lh: int) -> bool {
    exists|e: int| 0 <= e < row.len() && #[trigger] row[e].lookahead == lh
}

/// Slot `j` is occupied and looks, to a reader using offset `ofs`, like a cell
/// of that reader's row.
pub open spec fn claims(tab: Seq<Option<LookaheadAction>>, ofs: int, j: int) -> bool {
    &&& 0 <= j < tab.len()
    &&& tab[j] is Some
    &&& tab[j]->0.lookahead == j - ofs
}

/// Every cell of the row is already stored where offset `ofs` would put it.
pub open spec fn row_present(
    tab: Seq<Option<LookaheadAction>>,
    row: Seq<LookaheadAction>,
    ofs: int,
) -> bool {
    forall|e: int|
        0 <= e < row.len() ==> {
            let k = (#[trigger] row[e]).lookahead + ofs;
            0 <= k < tab.len() && tab[k] == Some(row[e])
        }
}

/// Every slot into which offset `ofs` would put a cell of the row is free or
/// lies past the end of the table.
pub open spec fn row_lands_free(
    tab: Seq<Option<LookaheadAction>>,
    row: Seq<LookaheadAction>,
    ofs: int,
) -> bool {
    forall|e: int|
        0 <= e < row.len() ==> {
            let k = (#[trigger] row[e]).lookahead + ofs;
            0 <= k && (k >= tab.len() || tab[k] is None)
        }
}

/// No slot claims offset `ofs` except for the lookaheads of the row.
pub open spec fn no_stranger(
    tab: Seq<Option<LookaheadAction>>,
    row: Seq<LookaheadAction>,
    ofs: int,
) -> bool {
    forall|j: int| #[trigger] claims(tab, ofs, j) ==> row_has(row, j - ofs)
}

/// No slot at all claims offset `ofs`.
pub open spec fn unclaimed(tab: Seq<Option<LookaheadAction>>, ofs: int) -> bool {
    forall|j: int| !#[trigger] claims(tab, ofs, j)
}

/// The row is already in the table with its first cell in slot `i`, and a
/// reader at that offset sees nothing but the row.
pub open spec fn can_reuse(
    tab: Seq<Option<LookaheadAction>>,
    row: Seq<LookaheadAction>,
    i: int,
) -> bool {
    &&& 0 <= i < tab.len()
    &&& row_present(tab, row, i - row[0].lookahead)
    &&& no_stranger(tab, row, i - row[0].lookahead)
}

/// The row can be written with its first cell in slot `i`: its cells land on
/// free slots and no occupied slot would be mistaken for one of them.
pub open spec fn can_place(
    tab: Seq<Option<LookaheadAction>>,
    row: Seq<LookaheadAction>,
    i: int,
) -> bool {
    &&& 0 <= i
    &&& row_lands_free(tab, row, i - row[0].lookahead)
    &&& unclaimed(tab, i - row[0].lookahead)
}

/// Cell `e` is the last one of the row for its lookahead.
pub open spec fn last_for_lookahead(row: Seq<LookaheadAction>, e: int) -> bool {
    &&& 0 <= e < row.len()
    &&& (e + 1 < row.len() ==> row[e + 1].lookahead != row[e].lookahead)
}

/// `after` is `before` with the row written at offset `ofs`: the table grows
/// just far enough to hold the last cell, each lookahead of the row holds its
/// last cell, and every other slot is as it was (free, if it is new).
pub open spec fn row_written(
    before: Seq<Option<LookaheadAction>>,
    after: Seq<Option<LookaheadAction>>,
    row: Seq<LookaheadAction>,
    ofs: int,
) -> bool {
    &&& after.len() == if before.len() > row.last().lookahead + ofs {
        before.len() as int
    } else {
        row.last().lookahead + ofs + 1
    }
    &&& forall|e: int| #[trigger]
        last_for_lookahead(row, e) ==> after[row[e].lookahead + ofs] == Some(row[e])
    &&& forall|k: int|
        0 <= k < after.len() && !row_has(row, k - ofs) ==> #[trigger] after[k] == if k
            < before.len() {
            before[k]
        } else {
            None
        }
}

/// What a reader finds for lookahead `lh` at offset `ofs`: the stored action if
/// the addressed slot exists and was written for `lh`, and nothing otherwise.
pub open spec fn lookup(tab: Seq<Option<LookaheadAction>>, ofs: int, lh: int) -> Option<usize> {
    if claims(tab, ofs, lh + ofs) {
        Some(tab[lh + ofs]->0.action)
    } else {
        None
    }
}

impl ActionSet {
    /// The cells of the row.
    pub open spec fn view(&self) -> Seq<LookaheadAction> {
        self.a_lookahead@
    }

    /// An empty row.
    pub fn new() -> (s: ActionSet)
        ensures
            s@ == Seq::<LookaheadAction>::empty(),
    {
        ActionSet { a_lookahead: Vec::new() }
    }

    /// Appends the cell `(lookahead, action)` to the row.
    pub fn add_action(&mut self, lookahead: usize, action: usize)
        ensures
            final(self)@ == old(self)@.push(LookaheadAction { lookahead, action }),
    {
        self.a_lookahead.push(LookaheadAction { lookahead, action });
    }

    /// Whether some cell of the row is for lookahead `lh`.
    fn has_lookahead(&self, lh: usize) -> (b: bool)
        ensures
            b == row_has(self@, lh as int),
    {
        let mut e: usize = 0;
        while e < self.a_lookahead.len()
            invariant
                e <= self.a_lookahead.len(),
                forall|x: int| 0 <= x < e ==> (#[trigger] self@[x]).lookahead != lh,
            decreases self.a_lookahead.len() - e,
        {
            if self.a_lookahead[e].lookahead == lh {
                return true;
            }
            e += 1;
        }
        false
    }
}

impl ActTab {
    /// The slots of the table.
    pub open spec fn view(&self) -> Seq<Option<LookaheadAction>> {
        self.a_action@
    }

    /// An empty table.
    pub fn new() -> (t: ActTab)
        ensures
            t@ == Seq::<Option<LookaheadAction>>::empty(),
    {
        ActTab { a_action: Vec::new() }
    }

    /// Whether the row is stored with its first cell in slot `i`.
    fn present_at(&self, at2: &ActionSet, i: usize) -> (b: bool)
        requires
            at2@.len() > 0,
            row_sorted(at2@),
            i < self@.len(),
            self@.len() + at2@.last().lookahead <= MAX_TABLE_INDEX,
        ensures
            b == row_present(self@, at2@, i - at2@[0].lookahead),
    {
        let min_lookahead = at2.a_lookahead[0].lookahead;
        let ghost ofs = i - min_lookahead;
        let mut e: usize = 0;
        while e < at2.a_lookahead.len()
            invariant
                e <= at2@.len(),
                at2@.len() > 0,
                row_sorted(at2@),
                min_lookahead == at2@[0].lookahead,
                ofs == i - min_lookahead,
                i < self@.len(),
                self@.len() + at2@.last().lookahead <= MAX_TABLE_INDEX,
                forall|x: int|
                    0 <= x < e ==> {
                        let k = (#[trigger] at2@[x]).lookahead + ofs;
                        0 <= k < self@.len() && self@[k] == Some(at2@[x])
                    },
            decreases at2@.len() - e,
        {
            let jla = at2.a_lookahead[e];
            assert(at2@[0].lookahead <= at2@[e as int].lookahead <= at2@.last().lookahead);
            let k = jla.lookahead - min_lookahead + i;
            if k >= self.a_action.len() {
                return false;
            }
            match self.a_action[k] {
                Some(ka) => {
                    if jla.lookahead != ka.lookahead || jla.action != ka.action {
                        return false;
                    }
                },
                None => {
                    return false;
                },
            }
            e += 1;
        }
        true
    }

    /// Whether every cell of the row would land on a free slot with its first
    /// cell in slot `i`.
    fn lands_free_at(&self, at2: &ActionSet, i: usize) -> (b: bool)
        requires
            at2@.len() > 0,
            row_sorted(at2@),
            i <= self@.len() + at2@[0].lookahead,
            self@.len() + at2@.last().lookahead <= MAX_TABLE_INDEX,
        ensures
            b == row_lands_free(self@, at2@, i - at2@[0].lookahead),
    {
        let min_lookahead = at2.a_lookahead[0].lookahead;
        let ghost ofs = i - min_lookahead;
        let mut e: usize = 0;
        while e < at2.a_lookahead.len()
            invariant
                e <= at2@.len(),
                at2@.len() > 0,
                row_sorted(at2@),
                min_lookahead == at2@[0].lookahead,
                ofs == i - min_lookahead,
                i <= self@.len() + at2@[0].lookahead,
                self@.len() + at2@.last().lookahead <= MAX_TABLE_INDEX,
                forall|x: int|
                    0 <= x < e ==> {
                        let k = (#[trigger] at2@[x]).lookahead + ofs;
                        0 <= k && (k >= self@.len() || self@[k] is None)
                    },
            decreases at2@.len() - e,
        {
            let jla = at2.a_lookahead[e];
            assert(at2@[0].lookahead <= at2@[e as int].lookahead <= at2@.last().lookahead);
            let k = jla.lookahead - min_lookahead + i;
            if k < self.a_action.len() {
                if self.a_action[k].is_some() {
                    return false;
                }
            }
            e += 1;
        }
        true
    }

    /// Whether slot `j` claims the offset that puts the row's first cell in
    /// slot `i`.
    fn slot_claims(&self, min_lookahead: usize, i: usize, j: usize) -> (b: bool)
        requires
            j < self@.len(),
            self@.len() + min_lookahead <= MAX_TABLE_INDEX,
        ensures
            b == claims(self@, i - min_lookahead, j as int),
    {
        match self.a_action[j] {
            None => false,
            Some(ja) => j + min_lookahead >= i && ja.lookahead == j + min_lookahead - i,
        }
    }

    /// Whether the only slots that claim the row's offset are slots of the row.
    fn only_row_claims(&self, at2: &ActionSet, i: usize) -> (b: bool)
        requires
            at2@.len() > 0,
            self@.len() + at2@[0].lookahead <= MAX_TABLE_INDEX,
        ensures
            b == no_stranger(self@, at2@, i - at2@[0].lookahead),
    {
        let min_lookahead = at2.a_lookahead[0].lookahead;
        let ghost ofs = i - min_lookahead;
        let mut j: usize = 0;
        while j < self.a_action.len()
            invariant
                j <= self@.len(),
                at2@.len() > 0,
                min_lookahead == at2@[0].lookahead,
                ofs == i - min_lookahead,
                self@.len() + min_lookahead <= MAX_TABLE_INDEX,
                forall|x: int|
                    0 <= x < j && #[trigger] claims(self@, ofs, x) ==> row_has(at2@, x - ofs),
            decreases self@.len() - j,
        {
            if self.slot_claims(min_lookahead, i, j) {
                let lh = j + min_lookahead - i;
                if !at2.has_lookahead(lh) {
                    assert(claims(self@, ofs, j as int));
                    return false;
                }
            }
            j += 1;
        }
        true
    }

    /// Whether no slot claims the offset that puts the row's first cell in
    /// slot `i`.
    fn nothing_claims(&self, min_lookahead: usize, i: usize) -> (b: bool)
        requires
            self@.len() + min_lookahead <= MAX_TABLE_INDEX,
        ensures
            b == unclaimed(self@, i - min_lookahead),
    {
        let ghost ofs = i - min_lookahead;
        let mut j: usize = 0;
        while j < self.a_action.len()
            invariant
                j <= self@.len(),
                ofs == i - min_lookahead,
                self@.len() + min_lookahead <= MAX_TABLE_INDEX,
                forall|x: int| 0 <= x < j ==> !#[trigger] claims(self@, ofs, x),
            decreases self@.len() - j,
        {
            if self.slot_claims(min_lookahead, i, j) {
                assert(claims(self@, ofs, j as int));
                return false;
            }
            j += 1;
        }
        true
    }

    /// Finds the highest slot at which the row is already stored and can be
    /// shared, if there is one.
    fn find_reuse(&self, at2: &ActionSet) -> (found: Option<usize>)
        requires
            at2@.len() > 0,
            row_sorted(at2@),
            self@.len() + at2@.last().lookahead <= MAX_TABLE_INDEX,
        ensures
            match found {
                Some(i) => can_reuse(self@, at2@, i as int) && forall|x: int|
                    can_reuse(self@, at2@, x) ==> x <= i,
                None => forall|x: int| !can_reuse(self@, at2@, x),
            },
    {
        let min_lookahead = at2.a_lookahead[0].lookahead;
        let min_action = at2.a_lookahead[0].action;
        let mut i: usize = self.a_action.len();
        while i > 0
            invariant
                i <= self@.len(),
                at2@.len() > 0,
                row_sorted(at2@),
                min_lookahead == at2@[0].lookahead,
                min_action == at2@[0].action,
                self@.len() + at2@.last().lookahead <= MAX_TABLE_INDEX,
                forall|x: int| i <= x ==> !can_reuse(self@, at2@, x),
            decreases i,
        {
            i -= 1;
            let head_matches = match self.a_action[i] {
                None => false,
                Some(a) => a.lookahead == min_lookahead && a.action == min_action,
            };
            assert(!head_matches ==> !row_present(self@, at2@, i - min_lookahead)) by {
                if !head_matches && row_present(self@, at2@, i - min_lookahead) {
                    assert(self@[at2@[0].lookahead + (i - min_lookahead)] == Some(at2@[0]));
                }
            }
            if head_matches && self.present_at(at2, i) && self.only_row_claims(at2, i) {
                return Some(i);
            }
        }
        None
    }

    /// Finds the lowest slot at which the row can be written.
    fn find_hole(&self, at2: &ActionSet) -> (i: usize)
        requires
            at2@.len() > 0,
            row_sorted(at2@),
            self@.len() + at2@.last().lookahead <= MAX_TABLE_INDEX,
        ensures
            i <= self@.len() + at2@[0].lookahead,
            can_place(self@, at2@, i as int),
            forall|x: int| can_place(self@, at2@, x) ==> i <= x,
    {
        let min_lookahead = at2.a_lookahead[0].lookahead;
        let end = self.a_action.len() + min_lookahead;
        let mut i: usize = 0;
        while i < end
            invariant
                i <= end,
                end == self@.len() + min_lookahead,
                at2@.len() > 0,
                row_sorted(at2@),
                min_lookahead == at2@[0].lookahead,
                self@.len() + at2@.last().lookahead <= MAX_TABLE_INDEX,
                forall|x: int| 0 <= x < i ==> !can_place(self@, at2@, x),
            decreases end - i,
        {
            if self.lands_free_at(at2, i) && self.nothing_claims(min_lookahead, i) {
                return i;
            }
            i += 1;
        }
        proof {
            let ofs = end - min_lookahead;
            assert(row_lands_free(self@, at2@, ofs)) by {
                assert forall|e: int| 0 <= e < at2@.len() implies {
                    let k = (#[trigger] at2@[e]).lookahead + ofs;
                    0 <= k && (k >= self@.len() || self@[k] is None)
                } by {
                    assert(at2@[0].lookahead <= at2@[e].lookahead);
                }
            }
            assert(unclaimed(self@, ofs));
        }
        end
    }

    /// Appends free slots until the table has `len` slots.
    fn grow_to(&mut self, len: usize)
        ensures
            final(self)@.len() == if old(self)@.len() > len {
                old(self)@.len()
            } else {
                len as nat
            },
            forall|k: int| 0 <= k < old(self)@.len() ==> final(self)@[k] == old(self)@[k],
            forall|k: int| old(self)@.len() <= k < final(self)@.len() ==> final(self)@[k] is None,
    {
        while self.a_action.len() < len
            invariant
                self@.len() >= old(self)@.len(),
                self@.len() <= len || self@.len() == old(self)@.len(),
                forall|k: int| 0 <= k < old(self)@.len() ==> self@[k] == old(self)@[k],
                forall|k: int| old(self)@.len() <= k < self@.len() ==> self@[k] is None,
            decreases len - self@.len(),
        {
            self.a_action.push(None);
        }
    }

    /// Writes the cells of the row, in order, with the first cell in slot `i`.
    fn write_row(&mut self, at2: &ActionSet, i: usize)
        requires
            at2@.len() > 0,
            row_sorted(at2@),
            i <= old(self)@.len() + at2@[0].lookahead,
            old(self)@.len() + at2@.last().lookahead <= MAX_TABLE_INDEX,
        ensures
            row_written(old(self)@, final(self)@, at2@, i - at2@[0].lookahead),
    {
        let min_lookahead = at2.a_lookahead[0].lookahead;
        let ghost ofs: int = i - min_lookahead;
        let ghost before = self@;
        let n = at2.a_lookahead.len();
        let mut e: usize = 0;
        while e < n
            invariant
                e <= n,
                n == at2@.len(),
                n > 0,
                row_sorted(at2@),
                min_lookahead == at2@[0].lookahead,
                ofs == i - min_lookahead,
                i <= before.len() + min_lookahead,
                before.len() + at2@.last().lookahead <= MAX_TABLE_INDEX,
                self@.len() >= before.len(),
                e == 0 ==> self@ == before,
                e > 0 ==> self@.len() == if before.len() > at2@[e - 1].lookahead + ofs {
                    before.len() as int
                } else {
                    at2@[e - 1].lookahead + ofs + 1
                },
                forall|x: int| #[trigger]
                    last_among(at2@, e as int, x) ==> self@[at2@[x].lookahead + ofs] == Some(
                        at2@[x],
                    ),
                forall|k: int|
                    0 <= k < self@.len() && !row_has_before(at2@, e as int, k - ofs)
                        ==> #[trigger] self@[k] == if k < before.len() {
                        before[k]
                    } else {
                        None
                    },
            decreases n - e,
        {
            let jla = at2.a_lookahead[e];
            assert(at2@[0].lookahead <= at2@[e as int].lookahead <= at2@.last().lookahead);
            if e > 0 {
                assert(at2@[e - 1].lookahead <= at2@[e as int].lookahead);
            }
            let k: usize = jla.lookahead - min_lookahead + i;
            let ghost prev = self@;
            self.grow_to(k + 1);
            self.a_action[k] = Some(jla);
            proof {
                assert forall|x: int| #[trigger]
                    last_among(at2@, e + 1, x) implies self@[at2@[x].lookahead + ofs] == Some(
                    at2@[x],
                ) by {
                    if x < e {
                        assert(at2@[x].lookahead <= at2@[x + 1].lookahead);
                        assert(at2@[x + 1].lookahead <= at2@[e as int].lookahead);
                        assert(at2@[x].lookahead != at2@[e as int].lookahead);
                        assert(last_among(at2@, e as int, x));
                        assert(prev[at2@[x].lookahead + ofs] == Some(at2@[x]));
                    }
                }
                assert forall|kk: int|
                    0 <= kk < self@.len() && !row_has_before(at2@, e + 1, kk - ofs) implies #[trigger] self@[kk]
                    == if kk < before.len() {
                    before[kk]
                } else {
                    None
                } by {
                    assert(at2@[e as int].lookahead != kk - ofs);
                    assert(kk != k);
                    assert(!row_has_before(at2@, e as int, kk - ofs));
                }
            }
            e += 1;
        }
        proof {
            assert forall|x: int| #[trigger]
                last_for_lookahead(at2@, x) implies self@[at2@[x].lookahead + ofs] == Some(
                at2@[x],
            ) by {
                assert(last_among(at2@, n as int, x));
            }
            assert forall|k: int|
                0 <= k < self@.len() && !row_has(at2@, k - ofs) implies #[trigger] self@[k] == if k
                < before.len() {
                before[k]
            } else {
                None
            } by {
                assert(!row_has_before(at2@, n as int, k - ofs));
            }
        }
    }

    /// Stores a row in the table and returns the offset at which it can be read
    /// back: the cell for lookahead `lh` is in slot `offset + lh`.
    ///
    /// A row that is already in the table, with no foreign slot in its way, is
    /// shared at the highest such place and the table stays as it is. Any other
    /// row is written at the lowest place where its cells land on free slots
    /// and no occupied slot could be mistaken for one of them.
    pub fn insert_action_set(&mut self, at2: &ActionSet) -> (res: i32)
        requires
            at2@.len() > 0,
            row_sorted(at2@),
            old(self)@.len() + at2@.last().lookahead <= MAX_TABLE_INDEX,
        ensures
            (exists|i: int| can_reuse(old(self)@, at2@, i)) ==> {
                &&& can_reuse(old(self)@, at2@, res + at2@[0].lookahead)
                &&& forall|i: int| can_reuse(old(self)@, at2@, i) ==> i <= res + at2@[0].lookahead
                &&& final(self)@ == old(self)@
            },
            !(exists|i: int| can_reuse(old(self)@, at2@, i)) ==> {
                &&& can_place(old(self)@, at2@, res + at2@[0].lookahead)
                &&& forall|i: int| can_place(old(self)@, at2@, i) ==> res + at2@[0].lookahead <= i
            },
            row_written(old(self)@, final(self)@, at2@, res as int),
            stored(old(self)@, at2@, final(self)@, res as int),
    {
        let min_lookahead = at2.a_lookahead[0].lookahead;
        assert(at2@[0].lookahead <= at2@.last().lookahead);
        let found = self.find_reuse(at2);
        let i = match found {
            Some(i) => i,
            None => self.find_hole(at2),
        };
        let ghost before = self@;
        self.write_row(at2, i);
        proof {
            if found is Some {
                lemma_rewrite_keeps(before, self@, at2@, i - min_lookahead);
            }
            reveal(chosen);
        }
        if i < min_lookahead {
            let gap: usize = min_lookahead - i;
            -(gap as i32)
        } else {
            let gap: usize = i - min_lookahead;
            gap as i32
        }
    }
}

/// Cell `x` is the last one for its lookahead among the first `n` cells.
pub open spec fn last_among(row: Seq<LookaheadAction>, n: int, x: int) -> bool {
    &&& 0 <= x < n
    &&& (x + 1 < n ==> row[x + 1].lookahead != row[x].lookahead)
}

/// Some cell among the first `n` of the row is for lookahead `lh`.
pub open spec fn row_has_before(row: Seq<LookaheadAction>, n: int, lh: int) -> bool {
    exists|e: int| 0 <= e < n && e < row.len() && #[trigger] row[e].lookahead == lh
}

/// Writing a row over a place where it is already stored changes nothing.
proof fn lemma_rewrite_keeps(
    before: Seq<Option<LookaheadAction>>,
    after: Seq<Option<LookaheadAction>>,
    row: Seq<LookaheadAction>,
    ofs: int,
)
    requires
        row.len() > 0,
        row_present(before, row, ofs),
        row_written(before, after, row, ofs),
    ensures
        after == before,
{
    assert(row[row.len() - 1] == row.last());
    assert(after.len() == before.len());
    assert forall|k: int| 0 <= k < after.len() implies after[k] == before[k] by {
        if row_has(row, k - ofs) {
            let e = choose|e: int| 0 <= e < row.len() && #[trigger] row[e].lookahead == k - ofs;
            lemma_last_cell_exists(row, e);
            let l = choose|l: int|
                last_for_lookahead(row, l) && row[l].lookahead == row[e].lookahead;
            assert(after[row[l].lookahead + ofs] == Some(row[l]));
            assert(before[row[l].lookahead + ofs] == Some(row[l]));
        }
    }
    assert(after =~= before);
}

/// Every lookahead of a row has a last cell.
pub proof fn lemma_last_cell_exists(row: Seq<LookaheadAction>, e: int)
    requires
        0 <= e < row.len(),
    ensures
        exists|l: int| last_for_lookahead(row, l) && row[l].lookahead == row[e].lookahead,
    decreases row.len() - e,
{
    if e + 1 < row.len() && row[e + 1].lookahead == row[e].lookahead {
        lemma_last_cell_exists(row, e + 1);
    } else {
        assert(last_for_lookahead(row, e));
    }
}

/// The action that a row gives for lookahead `lh`: that of its last cell for
/// `lh`, or nothing where the row has no such cell.
pub open spec fn row_action(row: Seq<LookaheadAction>, lh: int) -> Option<usize> {
    if row_has(row, lh) {
        let e = choose|e: int| last_for_lookahead(row, e) && row[e].lookahead == lh;
        Some(row[e].action)
    } else {
        None
    }
}

/// In a sorted row the last cell for a lookahead is unique.
proof fn lemma_last_cell_unique(row: Seq<LookaheadAction>, a: int, b: int)
    requires
        row_sorted(row),
        last_for_lookahead(row, a),
        last_for_lookahead(row, b),
        row[a].lookahead == row[b].lookahead,
    ensures
        a == b,
{
    if a < b {
        assert(row[a].lookahead <= row[a + 1].lookahead);
        assert(row[a + 1].lookahead <= row[b].lookahead);
    }
    if b < a {
        assert(row[b].lookahead <= row[b + 1].lookahead);
        assert(row[b + 1].lookahead <= row[a].lookahead);
    }
}

/// A row that was stored with its first cell in slot `i`, where it could be
/// shared or placed, is read back exactly: at the row's offset every lookahead
/// of the row finds the row's action, and every other lookahead finds nothing.
pub proof fn law_stored_row_is_read_back(
    before: Seq<Option<LookaheadAction>>,
    after: Seq<Option<LookaheadAction>>,
    row: Seq<LookaheadAction>,
    i: int,
)
    requires
        row.len() > 0,
        row_sorted(row),
        can_reuse(before, row, i) || can_place(before, row, i),
        row_written(before, after, row, i - row[0].lookahead),
    ensures
        forall|lh: int| #[trigger] lookup(after, i - row[0].lookahead, lh) == row_action(row, lh),
{
    let ofs = i - row[0].lookahead;
    assert forall|lh: int| #[trigger] lookup(after, ofs, lh) == row_action(row, lh) by {
        let k = lh + ofs;
        if row_has(row, lh) {
            let e = choose|e: int| 0 <= e < row.len() && #[trigger] row[e].lookahead == lh;
            lemma_last_cell_exists(row, e);
            let l = choose|l: int|
                last_for_lookahead(row, l) && row[l].lookahead == row[e].lookahead;
            let c = choose|c: int| last_for_lookahead(row, c) && row[c].lookahead == lh;
            lemma_last_cell_unique(row, l, c);
            assert(row[0].lookahead <= row[l].lookahead);
            assert(row[l].lookahead <= row[row.len() - 1].lookahead);
            assert(after[row[l].lookahead + ofs] == Some(row[l]));
            assert(claims(after, ofs, k));
        } else {
            if claims(after, ofs, k) {
                assert(after[k] == if k < before.len() {
                    before[k]
                } else {
                    None
                });
                assert(claims(before, ofs, k));
                assert(row_has(row, k - ofs));
            }
        }
    }
}

/// Storing a row leaves every other offset as it was: a reader at another
/// offset finds after the insertion what it found before.
pub proof fn law_stored_row_keeps_others(
    before: Seq<Option<LookaheadAction>>,
    after: Seq<Option<LookaheadAction>>,
    row: Seq<LookaheadAction>,
    i: int,
    other: int,
)
    requires
        row.len() > 0,
        row_sorted(row),
        can_reuse(before, row, i) || can_place(before, row, i),
        row_written(before, after, row, i - row[0].lookahead),
        other != i - row[0].lookahead,
    ensures
        forall|lh: int| #[trigger] lookup(after, other, lh) == lookup(before, other, lh),
{
    let ofs = i - row[0].lookahead;
    if can_reuse(before, row, i) {
        lemma_rewrite_keeps(before, after, row, ofs);
    } else {
        assert forall|lh: int| #[trigger] lookup(after, other, lh) == lookup(
            before,
            other,
            lh,
        ) by {
            let k = lh + other;
            if 0 <= k < after.len() {
                if row_has(row, k - ofs) {
                    let e = choose|e: int|
                        0 <= e < row.len() && #[trigger] row[e].lookahead == k - ofs;
                    lemma_last_cell_exists(row, e);
                    let l = choose|l: int|
                        last_for_lookahead(row, l) && row[l].lookahead == row[e].lookahead;
                    assert(after[row[l].lookahead + ofs] == Some(row[l]));
                    assert(k >= before.len() || before[k] is None);
                } else {
                    assert(after[k] == if k < before.len() {
                        before[k]
                    } else {
                        None
                    });
                }
            }
        }
    }
}

/// A row can always be written past the end of the table.
pub proof fn lemma_place_past_end(tab: Seq<Option<LookaheadAction>>, row: Seq<LookaheadAction>)
    requires
        row.len() > 0,
    ensures
        can_place(tab, row, tab.len() + row[0].lookahead),
{
    let ofs = tab.len() as int;
    assert forall|j: int| !#[trigger] claims(tab, ofs, j) by {}
}

/// Writing a row makes the table longer by no more than the row's last
/// lookahead and one.
pub proof fn lemma_insert_bound(
    before: Seq<Option<LookaheadAction>>,
    after: Seq<Option<LookaheadAction>>,
    row: Seq<LookaheadAction>,
    res: int,
)
    requires
        row.len() > 0,
        (exists|i: int| can_reuse(before, row, i)) ==> after == before,
        !(exists|i: int| can_reuse(before, row, i)) ==> forall|i: int|
            can_place(before, row, i) ==> res + row[0].lookahead <= i,
        row_written(before, after, row, res),
    ensures
        after.len() <= before.len() + row.last().lookahead + 1,
{
    if !(exists|i: int| can_reuse(before, row, i)) {
        lemma_place_past_end(before, row);
    }
}

/// Offset `ofs` is the one at which the row is stored in the table: the
/// highest at which the row can be shared, or, if it can be shared nowhere,
/// the lowest at which it can be placed.
#[verifier::opaque]
pub open spec fn chosen(
    tab: Seq<Option<LookaheadAction>>,
    row: Seq<LookaheadAction>,
    ofs: int,
) -> bool {
    if exists|i: int| can_reuse(tab, row, i) {
        &&& can_reuse(tab, row, ofs + row[0].lookahead)
        &&& forall|i: int| can_reuse(tab, row, i) ==> i <= ofs + row[0].lookahead
    } else {
        &&& can_place(tab, row, ofs + row[0].lookahead)
        &&& forall|i: int| can_place(tab, row, i) ==> ofs + row[0].lookahead <= i
    }
}

/// `after` is `before` with the row stored at offset `ofs`: the row is not
/// empty and in order; the offset is the one chosen for it; it could be
/// shared at that offset, and the table is as it was, or it could be placed
/// there, and was written.
pub open spec fn stored(
    before: Seq<Option<LookaheadAction>>,
    row: Seq<LookaheadAction>,
    after: Seq<Option<LookaheadAction>>,
    ofs: int,
) -> bool {
    &&& row.len() > 0
    &&& row_sorted(row)
    &&& row_written(before, after, row, ofs)
    &&& chosen(before, row, ofs)
    &&& if can_reuse(before, row, ofs + row[0].lookahead) {
        after == before
    } else {
        can_place(before, row, ofs + row[0].lookahead)
    }
}

/// The `k`-th row was stored at the `k`-th offset, which made the `k`-th
/// table into the next.
pub open spec fn stored_step(
    tabs: Seq<Seq<Option<LookaheadAction>>>,
    rows: Seq<Seq<LookaheadAction>>,
    offs: Seq<int>,
    k: int,
) -> bool {
    stored(tabs[k], rows[k], tabs[k + 1], offs[k])
}

/// The tables are those that storing the rows, one after the other, at the
/// offsets made of the first table.
pub open spec fn stored_in_turn(
    tabs: Seq<Seq<Option<LookaheadAction>>>,
    rows: Seq<Seq<LookaheadAction>>,
    offs: Seq<int>,
) -> bool {
    &&& tabs.len() == rows.len() + 1
    &&& offs.len() == rows.len()
    &&& forall|k: int| 0 <= k < rows.len() ==> #[trigger] stored_step(tabs, rows, offs, k)
}

/// Whatever rows are stored, in whatever order, every one of them is read
/// back exactly at its offset from every later table: the rows stored after
/// it took nothing from it and added nothing to it.
pub proof fn law_rows_stay_readable(
    tabs: Seq<Seq<Option<LookaheadAction>>>,
    rows: Seq<Seq<LookaheadAction>>,
    offs: Seq<int>,
    k: int,
    n: int,
)
    requires
        stored_in_turn(tabs, rows, offs),
        0 <= k < n <= rows.len(),
    ensures
        forall|lh: int| #[trigger] lookup(tabs[n], offs[k], lh) == row_action(rows[k], lh),
    decreases n - k,
{
    if n == k + 1 {
        assert(stored_step(tabs, rows, offs, k));
        law_stored_row_is_read_back(tabs[k], tabs[k + 1], rows[k], offs[k] + rows[k][0].lookahead);
    } else {
        law_rows_stay_readable(tabs, rows, offs, k, n - 1);
        assert(stored_step(tabs, rows, offs, k));
        assert(stored_step(tabs, rows, offs, n - 1));
        let before = tabs[n - 1];
        let after = tabs[n];
        let row = rows[n - 1];
        let ofs = offs[n - 1];
        if can_reuse(before, row, ofs + row[0].lookahead) {
        } else if ofs != offs[k] {
            law_stored_row_keeps_others(before, after, row, ofs + row[0].lookahead, offs[k]);
        } else {
            // nothing could be read at the offset, yet the earlier row is
            let first = rows[k][0].lookahead as int;
            assert(rows[k][0].lookahead == first);
            assert(row_has(rows[k], first));
            assert(lookup(before, ofs, first) == row_action(rows[k], first));
            assert(!claims(before, ofs, first + ofs));
        }
    }
}

/// Storing a row never takes a slot from another: the table does not get
/// shorter, and every slot that was occupied holds what it held.
pub proof fn law_occupied_slots_stay(
    before: Seq<Option<LookaheadAction>>,
    row: Seq<LookaheadAction>,
    after: Seq<Option<LookaheadAction>>,
    ofs: int,
)
    requires
        stored(before, row, after, ofs),
    ensures
        after.len() >= before.len(),
        forall|k: int| 0 <= k < before.len() && before[k] is Some ==> #[trigger] after[k] == before[k],
{
    if !can_reuse(before, row, ofs + row[0].lookahead) {
        assert forall|k: int| 0 <= k < before.len() && before[k] is Some implies #[trigger] after[k]
            == before[k] by {
            if row_has(row, k - ofs) {
                let e = choose|e: int| 0 <= e < row.len() && #[trigger] row[e].lookahead == k - ofs;
                assert(row[e].lookahead + ofs == k);
            }
        }
    }
}

/// Storing a row has one outcome: two tables that are both the table with
/// the row stored in it are the same table, and the row is at the same
/// offset in both.
pub proof fn law_storing_has_one_outcome(
    before: Seq<Option<LookaheadAction>>,
    row: Seq<LookaheadAction>,
    one: (Seq<Option<LookaheadAction>>, int),
    other: (Seq<Option<LookaheadAction>>, int),
)
    requires
        stored(before, row, one.0, one.1),
        stored(before, row, other.0, other.1),
    ensures
        one == other,
{
    reveal(chosen);
    assert(one.1 == other.1);
    let ofs: int = one.1;
    if !can_reuse(before, row, ofs + row[0].lookahead) {
        assert forall|k: int| 0 <= k < one.0.len() implies one.0[k] == other.0[k] by {
            if row_has(row, k - ofs) {
                let e: int = choose|e: int|
                    0 <= e < row.len() && #[trigger] row[e].lookahead == k - ofs;
                lemma_last_cell_exists(row, e);
                let l: int = choose|l: int|
                    last_for_lookahead(row, l) && row[l].lookahead == row[e].lookahead;
                assert(one.0[row[l].lookahead + ofs] == Some(row[l]));
                assert(other.0[row[l].lookahead + ofs] == Some(row[l]));
            }
        }
    }
    assert(one.0 =~= other.0);
}

} // verus!
