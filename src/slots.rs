//! The classification strategy: a table of five slots, each holding the most
//! extreme "high" and "low" fragment seen for its length class, and a
//! resolver that looks for a concatenation produced twice.

use vstd::prelude::*;
use crate::fragment::{class_index, class_role, contains_string, length_class, views};

verus! {

/// Number of slots in a table.
pub const SLOT_COUNT: usize = 5;

/// A slot: the retained high and low fragment of one length class.
#[derive(Clone, Debug, PartialEq, Eq)]
pub struct Slot {
    pub high: Option<String>,
    pub low: Option<String>,
}

/// The mathematical value of a slot: `(high, low)`.
pub type SlotView = (Option<Seq<char>>, Option<Seq<char>>);

/// The character sequence an optional string holds, if any.
pub open spec fn opt_view(o: Option<String>) -> Option<Seq<char>> {
    match o {
        Some(s) => Some(s@),
        None => None,
    }
}

impl Slot {
    pub open spec fn view(&self) -> SlotView {
        (opt_view(self.high), opt_view(self.low))
    }
}

/// The five slots of the classification strategy.
#[derive(Clone, Debug, PartialEq, Eq)]
pub struct SlotTable {
    pub slots: Vec<Slot>,
}

/// Slot 0 takes every fragment whose length is a multiple of four, keeping
/// the longest as high and a shorter (or equally long, different) one as low.
pub open spec fn feed_slot_zero(s: SlotView, f: Seq<char>) -> SlotView {
    match s {
        (None, low) => (Some(f), low),
        (Some(h), None) => if f.len() < h.len() {
            (Some(h), Some(f))
        } else if f.len() > h.len() {
            (Some(f), Some(h))
        } else if f != h {
            (Some(h), Some(f))
        } else {
            s
        },
        (Some(h), Some(l)) => if h.len() < f.len() {
            (Some(f), Some(l))
        } else if l.len() > f.len() {
            (Some(h), Some(f))
        } else {
            s
        },
    }
}

/// A high-role fragment replaces the slot's high if that is empty or shorter.
pub open spec fn feed_high(s: SlotView, f: Seq<char>) -> SlotView {
    match s.0 {
        None => (Some(f), s.1),
        Some(h) => if h.len() < f.len() { (Some(f), s.1) } else { s },
    }
}

/// A low-role fragment replaces the slot's low if that is empty or longer.
pub open spec fn feed_low(s: SlotView, f: Seq<char>) -> SlotView {
    match s.1 {
        None => (s.0, Some(f)),
        Some(l) => if l.len() > f.len() { (s.0, Some(f)) } else { s },
    }
}

/// The table after one more fragment `f` has been classified.
pub open spec fn feed_table(t: Seq<SlotView>, f: Seq<char>) -> Seq<SlotView> {
    let index = class_index(f.len()) as int;
    if index == 0 {
        t.update(0, feed_slot_zero(t[0], f))
    } else if class_role(f.len()) == 0 {
        t.update(index, feed_high(t[index], f))
    } else {
        t.update(4 - index, feed_low(t[4 - index], f))
    }
}

/// The empty table.
pub open spec fn empty_table() -> Seq<SlotView> {
    Seq::new(5, |i: int| (None, None))
}

/// The table after classifying `fs` in order, starting from the empty table.
pub open spec fn classify_all(fs: Seq<Seq<char>>) -> Seq<SlotView>
    decreases fs.len(),
{
    if fs.len() == 0 {
        empty_table()
    } else {
        feed_table(classify_all(fs.drop_last()), fs.last())
    }
}

/// The candidates one slot proposes: `h+h` for a lone high, `h+l` and `l+h`
/// for a full slot, nothing for a slot without a high.
pub open spec fn slot_combinations(s: SlotView) -> Seq<Seq<char>> {
    match s {
        (Some(h), None) => seq![h + h],
        (Some(h), Some(l)) => seq![h + l, l + h],
        _ => seq![],
    }
}

/// The candidates of all slots, slot by slot in order.
pub open spec fn table_combinations(t: Seq<SlotView>) -> Seq<Seq<char>>
    decreases t.len(),
{
    if t.len() == 0 {
        seq![]
    } else {
        table_combinations(t.drop_last()) + slot_combinations(t.last())
    }
}

/// Scanning from the end, the first candidate that also occurs earlier.
pub open spec fn find_repeated(c: Seq<Seq<char>>) -> Option<Seq<char>>
    decreases c.len(),
{
    if c.len() == 0 {
        None
    } else if c.drop_last().contains(c.last()) {
        Some(c.last())
    } else {
        find_repeated(c.drop_last())
    }
}

/// What the classification strategy makes of a block's fragments.
pub open spec fn solve_classified_spec(fs: Seq<Seq<char>>) -> Option<Seq<char>> {
    find_repeated(table_combinations(classify_all(fs)))
}

/// Slot 0 of a table never holds a low without a high, nor a low longer than
/// its high.
pub open spec fn table_wf(t: Seq<SlotView>) -> bool {
    &&& t.len() == 5
    &&& match t[0] {
        (None, Some(_)) => false,
        (Some(h), Some(l)) => l.len() <= h.len(),
        _ => true,
    }
}

fn clone_opt(o: &Option<String>) -> (r: Option<String>)
    ensures
        opt_view(r) == opt_view(*o),
{
    match o {
        Some(s) => Some(s.clone()),
        None => None,
    }
}

/// `feed_slot_zero` on an executable slot.
fn fed_slot_zero(s: &Slot, part: String) -> (r: Slot)
    ensures
        r.view() == feed_slot_zero(s.view(), part@),
{
    match (&s.high, &s.low) {
        (None, low) => Slot { high: Some(part), low: clone_opt(low) },
        (Some(h), None) => {
            let (hl, pl) = (h.unicode_len(), part.unicode_len());
            if pl < hl {
                Slot { high: Some(h.clone()), low: Some(part) }
            } else if pl > hl {
                Slot { high: Some(part), low: Some(h.clone()) }
            } else if *h != part {
                Slot { high: Some(h.clone()), low: Some(part) }
            } else {
                Slot { high: Some(h.clone()), low: None }
            }
        },
        (Some(h), Some(l)) => {
            let (hl, ll, pl) = (h.unicode_len(), l.unicode_len(), part.unicode_len());
            if hl < pl {
                Slot { high: Some(part), low: Some(l.clone()) }
            } else if ll > pl {
                Slot { high: Some(h.clone()), low: Some(part) }
            } else {
                Slot { high: Some(h.clone()), low: Some(l.clone()) }
            }
        },
    }
}

/// `feed_high` on an executable slot.
fn fed_high(s: &Slot, part: String) -> (r: Slot)
    ensures
        r.view() == feed_high(s.view(), part@),
{
    let accept = match &s.high {
        None => true,
        Some(h) => h.unicode_len() < part.unicode_len(),
    };
    if accept {
        Slot { high: Some(part), low: clone_opt(&s.low) }
    } else {
        Slot { high: clone_opt(&s.high), low: clone_opt(&s.low) }
    }
}

/// `feed_low` on an executable slot.
fn fed_low(s: &Slot, part: String) -> (r: Slot)
    ensures
        r.view() == feed_low(s.view(), part@),
{
    let accept = match &s.low {
        None => true,
        Some(l) => l.unicode_len() > part.unicode_len(),
    };
    if accept {
        Slot { high: clone_opt(&s.high), low: Some(part) }
    } else {
        Slot { high: clone_opt(&s.high), low: clone_opt(&s.low) }
    }
}

impl SlotTable {
    pub open spec fn view(&self) -> Seq<SlotView> {
        self.slots@.map_values(|s: Slot| s.view())
    }

    pub open spec fn wf(&self) -> bool {
        table_wf(self.view())
    }

    /// A table with five empty slots.
    pub fn new() -> (r: SlotTable)
        ensures
            r.view() == empty_table(),
            r.wf(),
    {
        let mut slots: Vec<Slot> = Vec::new();
        let mut i: usize = 0;
        while i < SLOT_COUNT
            invariant
                i <= SLOT_COUNT,
                slots@.len() == i,
                forall|k: int| 0 <= k < i ==> (#[trigger] slots@[k]).view() == (None::<Seq<char>>, None::<Seq<char>>),
            decreases SLOT_COUNT - i,
        {
            slots.push(Slot { high: None, low: None });
            i = i + 1;
        }
        let r = SlotTable { slots };
        assert(r.view() =~= empty_table());
        r
    }

    /// Classifies one more fragment, keeping per slot only the most extreme
    /// fragments seen so far.
    pub fn feed(&mut self, part: String)
        requires
            old(self).wf(),
        ensures
            final(self).view() == feed_table(old(self).view(), part@),
            final(self).wf(),
    {
        let (index, half) = length_class(part.unicode_len());
        let k: usize = if index == 0 { 0 } else if half == 0 { index } else { 4 - index };
        let slot = if index == 0 {
            fed_slot_zero(&self.slots[k], part)
        } else if half == 0 {
            fed_high(&self.slots[k], part)
        } else {
            fed_low(&self.slots[k], part)
        };
        self.slots.set(k, slot);
        proof {
            assert(self.view() =~= feed_table(old(self).view(), part@));
        }
    }
}

/// Classifying the same fragment twice in a row leaves a well-formed table
/// as classifying it once does: a repeated fragment is never taken as a
/// distinct low, nor does it displace anything.
pub proof fn lemma_feed_idempotent(t: Seq<SlotView>, f: Seq<char>)
    requires
        table_wf(t),
    ensures
        feed_table(feed_table(t, f), f) == feed_table(t, f),
{
    let once = feed_table(t, f);
    assert(feed_table(once, f) =~= once);
}

/// Every table built by classification from the empty table is well-formed.
pub proof fn lemma_classify_all_wf(fs: Seq<Seq<char>>)
    ensures
        table_wf(classify_all(fs)),
    decreases fs.len(),
{
    if fs.len() > 0 {
        lemma_classify_all_wf(fs.drop_last());
    }
}

/// A block holding one fragment twice classifies exactly as a block holding
/// it once.
pub proof fn lemma_duplicate_fragment(f: Seq<char>)
    ensures
        classify_all(seq![f, f]) == classify_all(seq![f]),
{
    assert(seq![f, f].drop_last() =~= seq![f]);
    assert(seq![f].drop_last() =~= Seq::<Seq<char>>::empty());
    lemma_classify_all_wf(seq![f].drop_last());
    lemma_feed_idempotent(empty_table(), f);
}

/// The candidates of one slot (see `slot_combinations`).
pub fn create_combinations(slot: &Slot) -> (r: Vec<String>)
    ensures
        views(r@) == slot_combinations(slot.view()),
{
    let mut r: Vec<String> = Vec::new();
    match (&slot.high, &slot.low) {
        (Some(h), None) => {
            r.push(h.clone().concat(h.as_str()));
        },
        (Some(h), Some(l)) => {
            r.push(h.clone().concat(l.as_str()));
            r.push(l.clone().concat(h.as_str()));
        },
        _ => {},
    }
    assert(views(r@) =~= slot_combinations(slot.view()));
    r
}

/// The repeated candidate that `find_repeated` picks, if any.
pub fn resolve_repeated(combinations: Vec<String>) -> (r: Option<String>)
    ensures
        opt_view(r) == find_repeated(views(combinations@)),
{
    let mut c = combinations;
    while c.len() > 0
        invariant
            find_repeated(views(c@)) == find_repeated(views(combinations@)),
        decreases c@.len(),
    {
        let ghost before = c@;
        let last = c.pop().unwrap();
        proof {
            assert(views(c@) =~= views(before).drop_last());
        }
        if contains_string(&c, &last) {
            return Some(last);
        }
    }
    None
}

/// Reconstructs a block by the classification strategy: classifies the
/// fragments in order, collects every slot's candidates and returns the last
/// candidate that occurs twice; `None` when no candidate repeats.
pub fn solve_classified(fragments: &Vec<String>) -> (r: Option<String>)
    ensures
        opt_view(r) == solve_classified_spec(views(fragments@)),
{
    let mut table = SlotTable::new();
    let mut i: usize = 0;
    while i < fragments.len()
        invariant
            i <= fragments@.len(),
            table.wf(),
            table.view() == classify_all(views(fragments@).take(i as int)),
        decreases fragments@.len() - i,
    {
        proof {
            assert(views(fragments@).take(i + 1).drop_last() =~= views(fragments@).take(i as int));
        }
        table.feed(fragments[i].clone());
        i = i + 1;
    }
    assert(views(fragments@).take(i as int) =~= views(fragments@));
    let mut combinations: Vec<String> = Vec::new();
    let mut k: usize = 0;
    while k < table.slots.len()
        invariant
            k <= table.slots@.len(),
            table.slots@.len() == 5,
            views(combinations@) == table_combinations(table.view().take(k as int)),
        decreases table.slots@.len() - k,
    {
        let mut c = create_combinations(&table.slots[k]);
        proof {
            assert(table.view().take(k + 1).drop_last() =~= table.view().take(k as int));
        }
        combinations.append(&mut c);
        proof {
            assert(views(combinations@) =~= table_combinations(table.view().take(k + 1)));
        }
        k = k + 1;
    }
    assert(table.view().take(k as int) =~= table.view());
    resolve_repeated(combinations)
}

} // verus!
