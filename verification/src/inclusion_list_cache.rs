//! The inclusion lists seen for each slot, and the transactions they ask for.
use crate::types::{Hash256, Slot};
use std::collections::{HashMap, HashSet};
use vstd::prelude::*;

verus! {

broadcast use vstd::std_specs::hash::group_hash_axioms;

/// The bytes of a transaction.
pub type Transaction = Vec<u8>;

/// The transactions that a committee member asks to be included.
pub struct InclusionList {
    pub slot: Slot,
    pub validator_index: u64,
    pub inclusion_list_committee_root: Hash256,
    pub transactions: Vec<Transaction>,
}

/// An inclusion list and the bytes of its signature.
pub struct SignedInclusionList {
    pub message: InclusionList,
    pub signature: Vec<u8>,
}

/// What a signed inclusion list says.
#[verifier::ext_equal]
pub struct SignedListView {
    pub slot: Slot,
    pub validator_index: u64,
    pub inclusion_list_committee_root: Hash256,
    pub transactions: Seq<Seq<u8>>,
    pub signature: Seq<u8>,
}

/// The bytes of each of some transactions.
pub open spec fn contents(transactions: Seq<Transaction>) -> Seq<Seq<u8>> {
    transactions.map_values(|t: Transaction| t@)
}

impl View for SignedInclusionList {
    type V = SignedListView;

    open spec fn view(&self) -> SignedListView {
        SignedListView {
            slot: self.message.slot,
            validator_index: self.message.validator_index,
            inclusion_list_committee_root: self.message.inclusion_list_committee_root,
            transactions: contents(self.message.transactions@),
            signature: self.signature@,
        }
    }
}

struct Inner {
    inclusion_lists: Vec<SignedInclusionList>,
    inclusion_lists_seen: HashSet<u64>,
    inclusion_list_equivocators: HashSet<u64>,
    inclusion_list_transactions: Vec<Transaction>,
}

/// What the cache knows of one slot.
#[verifier::ext_equal]
pub struct SlotLists {
    /// The lists that were taken up.
    pub lists: Set<SignedListView>,
    /// The validators whose lists were taken up.
    pub seen: Set<u64>,
    /// The validators that sent different lists.
    pub equivocators: Set<u64>,
    /// The transactions of the lists.
    pub transactions: Set<Seq<u8>>,
}

/// What is known of a slot before any list arrives.
pub open spec fn no_lists() -> SlotLists {
    SlotLists {
        lists: Set::empty(),
        seen: Set::empty(),
        equivocators: Set::empty(),
        transactions: Set::empty(),
    }
}

/// What is known of a slot once `list` has arrived.
///
/// The first list of a validator is taken up. A different one from the same validator makes the
/// validator an equivocator, whose lists are ignored from then on. A repetition changes nothing.
pub open spec fn with_list(known: SlotLists, list: SignedListView) -> SlotLists {
    if known.equivocators.contains(list.validator_index) {
        known
    } else if known.seen.contains(list.validator_index) {
        if known.lists.contains(list) {
            known
        } else {
            SlotLists { equivocators: known.equivocators.insert(list.validator_index), ..known }
        }
    } else {
        SlotLists {
            lists: known.lists.insert(list),
            seen: known.seen.insert(list.validator_index),
            transactions: known.transactions.union(list.transactions.to_set()),
            ..known
        }
    }
}

/// Whether some list of `lists` asks for `transaction`.
pub open spec fn asked_for(lists: Set<SignedListView>, transaction: Seq<u8>) -> bool {
    exists|list: SignedListView| #[trigger]
        lists.contains(list) && list.transactions.contains(transaction)
}

/// Whether some list of `lists` is of the validator `v`.
pub open spec fn has_list_of(lists: Set<SignedListView>, v: u64) -> bool {
    exists|list: SignedListView| #[trigger] lists.contains(list) && list.validator_index == v
}

/// What holds of every slot: the lists are of that slot, one for each validator seen, equivocators
/// have been seen, and the transactions are those of the lists.
pub open spec fn consistent(known: SlotLists, slot: Slot) -> bool {
    &&& forall|list: SignedListView| #[trigger]
        known.lists.contains(list) ==> list.slot == slot && known.seen.contains(list.validator_index)
    &&& forall|a: SignedListView, b: SignedListView| #[trigger]
        known.lists.contains(a) && #[trigger] known.lists.contains(b) && a.validator_index
            == b.validator_index ==> a == b
    &&& forall|v: u64| #[trigger] known.seen.contains(v) ==> has_list_of(known.lists, v)
    &&& known.equivocators.subset_of(known.seen)
    &&& forall|t: Seq<u8>| #[trigger] known.transactions.contains(t) <==> asked_for(known.lists, t)
}

/// A slot without lists is consistent.
pub proof fn law_no_lists_consistent(slot: Slot)
    ensures
        consistent(no_lists(), slot),
{
}

/// A list that arrives for a slot keeps what is known of it consistent: each validator has at most
/// one list, and the transactions are exactly those that the lists ask for.
pub proof fn law_lists_stay_consistent(known: SlotLists, slot: Slot, list: SignedListView)
    requires
        consistent(known, slot),
        list.slot == slot,
    ensures
        consistent(with_list(known, list), slot),
{
    let v = list.validator_index;
    let next = with_list(known, list);
    if !known.equivocators.contains(v) && !known.seen.contains(v) {
        assert(next.lists.contains(list));
        assert forall|a: SignedListView, b: SignedListView| #[trigger]
            next.lists.contains(a) && #[trigger] next.lists.contains(b) && a.validator_index
                == b.validator_index implies a == b by {
            assert(a == list || known.lists.contains(a));
            assert(b == list || known.lists.contains(b));
        }
        assert forall|w: u64| #[trigger] next.seen.contains(w) implies has_list_of(next.lists, w) by {
            if w != v {
                assert(known.seen.contains(w));
                assert(has_list_of(known.lists, w));
                let l = choose|l: SignedListView| #[trigger]
                    known.lists.contains(l) && l.validator_index == w;
                assert(next.lists.contains(l));
            }
        }
        assert forall|t: Seq<u8>| #[trigger] next.transactions.contains(t) <==> asked_for(
            next.lists,
            t,
        ) by {
            assert(known.transactions.contains(t) <==> asked_for(known.lists, t));
            if asked_for(known.lists, t) {
                let l = choose|l: SignedListView| #[trigger]
                    known.lists.contains(l) && l.transactions.contains(t);
                assert(next.lists.contains(l));
            }
            if asked_for(next.lists, t) {
                let l = choose|l: SignedListView| #[trigger]
                    next.lists.contains(l) && l.transactions.contains(t);
                if l != list {
                    assert(known.lists.contains(l));
                }
            }
        }
    }
}

/// A list that arrives twice counts once.
pub proof fn law_repeated_list_changes_nothing(known: SlotLists, list: SignedListView)
    ensures
        with_list(with_list(known, list), list) == with_list(known, list),
{
}

/// Two different lists of one validator make it an equivocator, whichever was sent first, and only
/// the one that arrived first has its transactions counted.
pub proof fn law_different_lists_make_an_equivocator(
    known: SlotLists,
    slot: Slot,
    first: SignedListView,
    second: SignedListView,
)
    requires
        consistent(known, slot),
        first.validator_index == second.validator_index,
        first != second,
        !known.seen.contains(first.validator_index),
    ensures
        with_list(with_list(known, first), second).equivocators.contains(first.validator_index),
        with_list(with_list(known, first), second).transactions == with_list(
            known,
            first,
        ).transactions,
        with_list(with_list(known, first), second).lists == known.lists.insert(first),
{
    if known.lists.contains(second) {
        assert(known.seen.contains(second.validator_index));
    }
    assert(!known.equivocators.contains(first.validator_index));
}

/// Nothing that an equivocator sends counts.
pub proof fn law_equivocator_is_ignored(known: SlotLists, list: SignedListView)
    requires
        known.equivocators.contains(list.validator_index),
    ensures
        with_list(known, list) == known,
{
}

/// Nothing that was taken up is ever dropped, and an equivocator stays one.
pub proof fn law_lists_only_grow(known: SlotLists, list: SignedListView)
    ensures
        known.lists.subset_of(with_list(known, list).lists),
        known.seen.subset_of(with_list(known, list).seen),
        known.equivocators.subset_of(with_list(known, list).equivocators),
        known.transactions.subset_of(with_list(known, list).transactions),
{
}

/// The inclusion lists of each slot.
pub struct InclusionListCache {
    inner_map: HashMap<Slot, Inner>,
    /// The number of transactions that an answer holds at most.
    max_transactions: usize,
}

impl Inner {
    spec fn known(self) -> SlotLists {
        SlotLists {
            lists: self.inclusion_lists@.map_values(|l: SignedInclusionList| l@).to_set(),
            seen: self.inclusion_lists_seen@,
            equivocators: self.inclusion_list_equivocators@,
            transactions: contents(self.inclusion_list_transactions@).to_set(),
        }
    }

    spec fn wf(self) -> bool {
        contents(self.inclusion_list_transactions@).no_duplicates()
    }
}

impl View for InclusionListCache {
    type V = Map<Slot, SlotLists>;

    closed spec fn view(&self) -> Map<Slot, SlotLists> {
        self.inner_map@.map_values(|i: Inner| i.known())
    }
}

fn same_bytes(a: &Vec<u8>, b: &Vec<u8>) -> (r: bool)
    ensures
        r == (a@ == b@),
{
    if a.len() != b.len() {
        return false;
    }
    let mut i: usize = 0;
    while i < a.len()
        invariant
            i <= a@.len(),
            a@.len() == b@.len(),
            a@.take(i as int) == b@.take(i as int),
        decreases a@.len() - i,
    {
        if a[i] != b[i] {
            assert(a@[i as int] != b@[i as int]);
            return false;
        }
        proof {
            assert(a@.take(i + 1) =~= a@.take(i as int).push(a@[i as int]));
            assert(b@.take(i + 1) =~= b@.take(i as int).push(b@[i as int]));
        }
        i += 1;
    }
    assert(a@.take(i as int) =~= a@);
    assert(b@.take(i as int) =~= b@);
    true
}

fn copy_bytes(a: &Vec<u8>) -> (r: Vec<u8>)
    ensures
        r@ == a@,
{
    let mut r: Vec<u8> = Vec::new();
    let mut i: usize = 0;
    while i < a.len()
        invariant
            i <= a@.len(),
            r@ == a@.take(i as int),
        decreases a@.len() - i,
    {
        r.push(a[i]);
        assert(a@.take(i + 1) =~= a@.take(i as int).push(a@[i as int]));
        i += 1;
    }
    assert(a@.take(i as int) =~= a@);
    r
}

fn same_transactions(a: &Vec<Transaction>, b: &Vec<Transaction>) -> (r: bool)
    ensures
        r == (contents(a@) == contents(b@)),
{
    if a.len() != b.len() {
        assert(contents(a@).len() != contents(b@).len());
        return false;
    }
    let mut i: usize = 0;
    while i < a.len()
        invariant
            i <= a@.len(),
            a@.len() == b@.len(),
            forall|k: int| 0 <= k < i ==> (#[trigger] a@[k])@ == b@[k]@,
        decreases a@.len() - i,
    {
        if !same_bytes(&a[i], &b[i]) {
            assert(contents(a@)[i as int] != contents(b@)[i as int]);
            return false;
        }
        i += 1;
    }
    assert(contents(a@) =~= contents(b@));
    true
}

impl SignedInclusionList {
    fn same_as(&self, other: &SignedInclusionList) -> (r: bool)
        ensures
            r == (self@ == other@),
    {
        self.message.slot == other.message.slot && self.message.validator_index
            == other.message.validator_index && self.message.inclusion_list_committee_root
            == other.message.inclusion_list_committee_root && same_transactions(
            &self.message.transactions,
            &other.message.transactions,
        ) && same_bytes(&self.signature, &other.signature)
    }
}

fn holds_list(lists: &Vec<SignedInclusionList>, list: &SignedInclusionList) -> (r: bool)
    ensures
        r == lists@.map_values(|l: SignedInclusionList| l@).to_set().contains(list@),
{
    let ghost views = lists@.map_values(|l: SignedInclusionList| l@);
    let mut i: usize = 0;
    while i < lists.len()
        invariant
            i <= lists@.len(),
            views == lists@.map_values(|l: SignedInclusionList| l@),
            forall|k: int| 0 <= k < i ==> (#[trigger] views[k]) != list@,
        decreases lists@.len() - i,
    {
        if lists[i].same_as(list) {
            assert(views[i as int] == list@);
            assert(views.contains(list@));
            return true;
        }
        i += 1;
    }
    assert(!views.contains(list@));
    false
}

fn holds_transaction(transactions: &Vec<Transaction>, t: &Transaction) -> (r: bool)
    ensures
        r == contents(transactions@).contains(t@),
{
    let ghost all = contents(transactions@);
    let mut i: usize = 0;
    while i < transactions.len()
        invariant
            i <= transactions@.len(),
            all == contents(transactions@),
            forall|k: int| 0 <= k < i ==> (#[trigger] all[k]) != t@,
        decreases transactions@.len() - i,
    {
        if same_bytes(&transactions[i], t) {
            assert(all[i as int] == t@);
            return true;
        }
        i += 1;
    }
    false
}

impl Inner {
    fn empty() -> (r: Inner)
        ensures
            r.wf(),
            r.known() == no_lists(),
    {
        let r = Inner {
            inclusion_lists: Vec::new(),
            inclusion_lists_seen: HashSet::new(),
            inclusion_list_equivocators: HashSet::new(),
            inclusion_list_transactions: Vec::new(),
        };
        proof {
            assert(r.known() =~= no_lists());
        }
        r
    }

    fn insert_transactions(&mut self, transactions: &Vec<Transaction>)
        requires
            old(self).wf(),
        ensures
            final(self).wf(),
            final(self).known() == (SlotLists {
                transactions: old(self).known().transactions.union(
                    contents(transactions@).to_set(),
                ),
                ..old(self).known()
            }),
    {
        let ghost before = old(self).known();
        let ghost added = contents(transactions@);
        let mut i: usize = 0;
        assert(added.take(0).to_set() =~= Set::empty());
        assert(self.known() =~= (SlotLists {
            transactions: before.transactions.union(added.take(0).to_set()),
            ..before
        }));
        while i < transactions.len()
            invariant
                i <= transactions@.len(),
                added == contents(transactions@),
                self.wf(),
                self.known() == (SlotLists {
                    transactions: before.transactions.union(added.take(i as int).to_set()),
                    ..before
                }),
            decreases transactions@.len() - i,
        {
            let t = &transactions[i];
            let ghost held = contents(self.inclusion_list_transactions@);
            let ghost earlier = self.known();
            proof {
                assert(added.take(i + 1) =~= added.take(i as int).push(t@));
                assert(added.take(i + 1).to_set() =~= added.take(i as int).to_set().insert(t@)) by {
                    assert forall|x: Seq<u8>| added.take(i as int).to_set().insert(t@).contains(
                        x,
                    ) implies added.take(i + 1).to_set().contains(x) by {
                        if x == t@ {
                            assert(added.take(i + 1)[i as int] == x);
                        } else {
                            let k = choose|k: int| 0 <= k < i && added.take(i as int)[k] == x;
                            assert(added.take(i + 1)[k] == x);
                        }
                    }
                }
            }
            if !holds_transaction(&self.inclusion_list_transactions, t) {
                self.inclusion_list_transactions.push(copy_bytes(t));
                proof {
                    let now = contents(self.inclusion_list_transactions@);
                    assert(now =~= held.push(t@));
                    assert(now.to_set() =~= held.to_set().insert(t@)) by {
                        assert forall|x: Seq<u8>| held.to_set().insert(t@).contains(x) implies now.to_set().contains(
                        x) by {
                            if x == t@ {
                                assert(now[held.len() as int] == x);
                            } else {
                                let k = choose|k: int| 0 <= k < held.len() && held[k] == x;
                                assert(now[k] == x);
                            }
                        }
                    }
                }
            }
            proof {
                assert(self.known().transactions =~= earlier.transactions.insert(t@));
                assert(self.known() =~= (SlotLists {
                    transactions: before.transactions.union(added.take(i + 1).to_set()),
                    ..before
                }));
            }
            i += 1;
        }
        assert(added.take(i as int) =~= added);
    }

    fn on_inclusion_list(&mut self, list: SignedInclusionList)
        requires
            old(self).wf(),
        ensures
            final(self).wf(),
            final(self).known() == with_list(old(self).known(), list@),
    {
        let validator_index: u64 = list.message.validator_index;
        if self.inclusion_list_equivocators.contains(&validator_index) {
            return;
        }
        let seen = self.inclusion_lists_seen.contains(&validator_index);
        let known = holds_list(&self.inclusion_lists, &list);
        if seen && !known {
            let _ = self.inclusion_list_equivocators.insert(validator_index);
            assert(self.known() =~= with_list(old(self).known(), list@));
            return;
        }
        if seen && known {
            return;
        }
        self.insert_transactions(&list.message.transactions);
        let _ = self.inclusion_lists_seen.insert(validator_index);
        let ghost views = self.inclusion_lists@.map_values(|l: SignedInclusionList| l@);
        let ghost added = list@;
        self.inclusion_lists.push(list);
        proof {
            let now = self.inclusion_lists@.map_values(|l: SignedInclusionList| l@);
            assert(now =~= views.push(added));
            assert(now.to_set() =~= views.to_set().insert(added)) by {
                assert forall|x: SignedListView| views.to_set().insert(added).contains(x) implies now.to_set().contains(
                x) by {
                    if x == added {
                        assert(now[views.len() as int] == x);
                    } else {
                        let k = choose|k: int| 0 <= k < views.len() && views[k] == x;
                        assert(now[k] == x);
                    }
                }
            }
            assert(self.known() =~= with_list(old(self).known(), added));
        }
    }
}

impl InclusionListCache {
    /// What is known of every slot is consistent.
    pub closed spec fn wf(self) -> bool {
        &&& forall|slot: Slot| #[trigger] self.inner_map@.contains_key(slot) ==> self.inner_map@[slot].wf()
        &&& forall|slot: Slot| #[trigger] self@.contains_key(slot) ==> consistent(self@[slot], slot)
    }

    /// The number of transactions that an answer holds at most.
    pub closed spec fn limit(self) -> usize {
        self.max_transactions
    }

    /// A cache without slots, whose answers hold at most `max_transactions` transactions.
    pub fn new(max_transactions: usize) -> (r: Self)
        ensures
            r.wf(),
            r@ == Map::<Slot, SlotLists>::empty(),
            r.limit() == max_transactions,
    {
        let r = InclusionListCache { inner_map: HashMap::new(), max_transactions };
        assert(r@ =~= Map::<Slot, SlotLists>::empty());
        r
    }

    /// Starts `slot` afresh, without lists.
    pub fn initialize(&mut self, slot: Slot)
        requires
            old(self).wf(),
        ensures
            final(self).wf(),
            final(self)@ == old(self)@.insert(slot, no_lists()),
            final(self).limit() == old(self).limit(),
    {
        let _ = self.inner_map.insert(slot, Inner::empty());
        proof {
            assert(self@ =~= old(self)@.insert(slot, no_lists()));
            assert forall|s: Slot| #[trigger] self@.contains_key(s) implies consistent(self@[s], s) by {
                if s != slot {
                    assert(old(self)@.contains_key(s));
                }
            }
        }
    }

    /// Forgets `slot`.
    pub fn clear_cache(&mut self, slot: Slot)
        requires
            old(self).wf(),
        ensures
            final(self).wf(),
            final(self)@ == old(self)@.remove(slot),
            final(self).limit() == old(self).limit(),
    {
        let _ = self.inner_map.remove(&slot);
        proof {
            assert(self@ =~= old(self)@.remove(slot));
            assert forall|s: Slot| #[trigger] self@.contains_key(s) implies consistent(self@[s], s) by {
                assert(old(self)@.contains_key(s));
            }
        }
    }

    /// Takes in a list. One for a slot that was not initialized is ignored.
    pub fn on_inclusion_list(&mut self, inclusion_list: SignedInclusionList)
        requires
            old(self).wf(),
        ensures
            final(self).wf(),
            final(self)@ == (if old(self)@.contains_key(inclusion_list@.slot) {
                old(self)@.insert(
                    inclusion_list@.slot,
                    with_list(old(self)@[inclusion_list@.slot], inclusion_list@),
                )
            } else {
                old(self)@
            }),
            final(self).limit() == old(self).limit(),
    {
        let slot: Slot = inclusion_list.message.slot;
        let ghost list = inclusion_list@;
        assert(self@.contains_key(slot) == self.inner_map@.contains_key(slot));
        if let Some(mut inner) = self.inner_map.remove(&slot) {
            inner.on_inclusion_list(inclusion_list);
            let _ = self.inner_map.insert(slot, inner);
            proof {
                assert(self@ =~= old(self)@.insert(slot, with_list(old(self)@[slot], list)));
                law_lists_stay_consistent(old(self)@[slot], slot, list);
                assert forall|s: Slot| #[trigger] self@.contains_key(s) implies consistent(
                    self@[s],
                    s,
                ) by {
                    if s != slot {
                        assert(old(self)@.contains_key(s));
                    }
                }
                assert forall|s: Slot| #[trigger] self.inner_map@.contains_key(s) implies self.inner_map@[s].wf() by {
                    if s != slot {
                        assert(old(self).inner_map@.contains_key(s));
                    }
                }
            }
        } else {
            assert(self.inner_map@ =~= old(self).inner_map@);
        }
    }

    /// The transactions of a slot's lists, each once, in no promised order: all of them, or as many
    /// as an answer may hold. None for a slot that was not initialized.
    pub fn get_inclusion_list_transactions(&self, slot: Slot) -> (r: Option<Vec<Transaction>>)
        requires
            self.wf(),
        ensures
            r is Some <==> self@.contains_key(slot),
            r matches Some(il) ==> {
                let all = self@[slot].transactions;
                &&& contents(il@).no_duplicates()
                &&& contents(il@).to_set().subset_of(all)
                &&& all.finite()
                &&& all.len() <= self.limit() ==> contents(il@).to_set() == all
                &&& il@.len() == if all.len() <= self.limit() {
                    all.len() as int
                } else {
                    self.limit() as int
                }
            },
    {
        assert(self@.contains_key(slot) == self.inner_map@.contains_key(slot));
        match self.inner_map.get(&slot) {
            None => None,
            Some(inner) => {
                let all = &inner.inclusion_list_transactions;
                let ghost views = contents(all@);
                let mut il: Vec<Transaction> = Vec::new();
                let mut i: usize = 0;
                while i < all.len() && i < self.max_transactions
                    invariant
                        i <= all@.len(),
                        i <= self.max_transactions,
                        views == contents(all@),
                        contents(il@) == views.take(i as int),
                    decreases all@.len() - i,
                {
                    il.push(copy_bytes(&all[i]));
                    proof {
                        assert(contents(il@) =~= views.take(i as int).push(all@[i as int]@));
                        assert(views.take(i + 1) =~= views.take(i as int).push(views[i as int]));
                    }
                    i += 1;
                }
                proof {
                    views.unique_seq_to_set();
                    assert(contents(il@).to_set().subset_of(views.to_set())) by {
                        assert forall|x: Seq<u8>| contents(il@).to_set().contains(x) implies views.to_set().contains(
                        x) by {
                            let k = choose|k: int| 0 <= k < i && views.take(i as int)[k] == x;
                            assert(views[k] == x);
                        }
                    }
                    if i == all@.len() {
                        assert(views.take(i as int) =~= views);
                    }
                    assert(contents(il@).len() == il@.len());
                    assert(self@[slot] == inner.known());
                }
                Some(il)
            },
        }
    }
}

/// What the cache knows of a slot is consistent: its lists are of that slot, one for each validator
/// seen, its equivocators have been seen, and its transactions are those of the lists.
pub proof fn law_known_slots_are_consistent(cache: InclusionListCache, slot: Slot)
    requires
        cache.wf(),
        cache@.contains_key(slot),
    ensures
        consistent(cache@[slot], slot),
{
}

/// What is known of a slot once these lists have arrived, one after the other.
pub open spec fn after_lists(arrived: Seq<SignedListView>) -> SlotLists
    decreases arrived.len(),
{
    if arrived.len() == 0 {
        no_lists()
    } else {
        with_list(after_lists(arrived.drop_last()), arrived.last())
    }
}

/// Whether no list of the same validator arrived before the `i`th.
pub open spec fn is_first_of_validator(arrived: Seq<SignedListView>, i: int) -> bool {
    &&& 0 <= i < arrived.len()
    &&& forall|j: int|
        0 <= j < i ==> (#[trigger] arrived[j]).validator_index != arrived[i].validator_index
}

/// Whether some list that arrived is of the validator `v`.
pub open spec fn sent_a_list(arrived: Seq<SignedListView>, v: u64) -> bool {
    exists|i: int| 0 <= i < arrived.len() && (#[trigger] arrived[i]).validator_index == v
}

/// Whether two lists that arrived are of the validator `v` and differ.
pub open spec fn sent_different_lists(arrived: Seq<SignedListView>, v: u64) -> bool {
    exists|i: int, j: int|
        0 <= i < j < arrived.len() && (#[trigger] arrived[i]).validator_index == v && (
        #[trigger] arrived[j]).validator_index == v && arrived[i] != arrived[j]
}

/// Whether the first list of some validator asks for `t`.
pub open spec fn first_asks_for(arrived: Seq<SignedListView>, t: Seq<u8>) -> bool {
    exists|i: int| #[trigger]
        is_first_of_validator(arrived, i) && arrived[i].transactions.contains(t)
}

/// Whether `list` is the first of its validator.
pub open spec fn arrived_first(arrived: Seq<SignedListView>, list: SignedListView) -> bool {
    exists|i: int| #[trigger] is_first_of_validator(arrived, i) && arrived[i] == list
}

/// Of the lists that arrive for a slot, the first of each validator is taken up, with all its
/// transactions and no others; those that sent different lists are the equivocators.
pub proof fn law_first_lists_count(arrived: Seq<SignedListView>)
    ensures
        forall|list: SignedListView| #[trigger]
            after_lists(arrived).lists.contains(list) <==> arrived_first(arrived, list),
        forall|v: u64| #[trigger]
            after_lists(arrived).seen.contains(v) <==> sent_a_list(arrived, v),
        forall|v: u64| #[trigger]
            after_lists(arrived).equivocators.contains(v) <==> sent_different_lists(arrived, v),
        forall|t: Seq<u8>| #[trigger]
            after_lists(arrived).transactions.contains(t) <==> first_asks_for(arrived, t),
    decreases arrived.len(),
{
    if arrived.len() > 0 {
        let short = arrived.drop_last();
        let n = arrived.len() - 1;
        let last = arrived.last();
        let v = last.validator_index;
        let before = after_lists(short);
        let after = after_lists(arrived);
        law_first_lists_count(short);
        assert forall|i: int| 0 <= i < n implies #[trigger] is_first_of_validator(arrived, i)
            == is_first_of_validator(short, i) by {
            if is_first_of_validator(arrived, i) {
                assert forall|j: int| 0 <= j < i implies (#[trigger] short[j]).validator_index
                    != short[i].validator_index by {
                    assert(arrived[j].validator_index != arrived[i].validator_index);
                }
            }
            if is_first_of_validator(short, i) {
                assert forall|j: int| 0 <= j < i implies (#[trigger] arrived[j]).validator_index
                    != arrived[i].validator_index by {
                    assert(short[j].validator_index != short[i].validator_index);
                }
            }
        }
        assert(is_first_of_validator(arrived, n) <==> !sent_a_list(short, v)) by {
            if sent_a_list(short, v) {
                let i = choose|i: int| 0 <= i < short.len() && (#[trigger] short[i]).validator_index == v;
                assert(arrived[i].validator_index == v);
            } else {
                assert forall|j: int| 0 <= j < n implies (#[trigger] arrived[j]).validator_index
                    != arrived[n].validator_index by {
                    assert(short[j] == arrived[j]);
                }
            }
        }
        assert(before.seen.contains(v) <==> sent_a_list(short, v));
        assert forall|list: SignedListView| #[trigger] after.lists.contains(list) <==> arrived_first(
            arrived,
            list,
        ) by {
            assert(before.lists.contains(list) <==> arrived_first(short, list));
            if arrived_first(short, list) {
                let i = choose|i: int| #[trigger] is_first_of_validator(short, i) && short[i] == list;
                assert(is_first_of_validator(arrived, i) && arrived[i] == list);
            }
            if arrived_first(arrived, list) {
                let i = choose|i: int| #[trigger] is_first_of_validator(arrived, i) && arrived[i] == list;
                if i < n {
                    assert(is_first_of_validator(short, i) && short[i] == list);
                }
            }
            if is_first_of_validator(arrived, n) {
                assert(arrived[n] == last);
            }
            lemma_equivocators_were_seen(short, v);
        }
        assert forall|w: u64| #[trigger] after.seen.contains(w) <==> sent_a_list(arrived, w) by {
            assert(before.seen.contains(w) <==> sent_a_list(short, w));
            if sent_a_list(short, w) {
                let i = choose|i: int| 0 <= i < short.len() && (#[trigger] short[i]).validator_index == w;
                assert(arrived[i].validator_index == w);
            }
            if sent_a_list(arrived, w) {
                let i = choose|i: int|
                    0 <= i < arrived.len() && (#[trigger] arrived[i]).validator_index == w;
                if i < n {
                    assert(short[i].validator_index == w);
                }
            }
            if w == v {
                assert(arrived[n].validator_index == w);
            }
            lemma_equivocators_were_seen(short, v);
        }
        assert forall|w: u64| #[trigger] after.equivocators.contains(w) <==> sent_different_lists(
            arrived,
            w,
        ) by {
            assert(before.equivocators.contains(w) <==> sent_different_lists(short, w));
            if sent_different_lists(short, w) {
                let (i, j) = choose|i: int, j: int|
                    0 <= i < j < short.len() && (#[trigger] short[i]).validator_index == w && (
                    #[trigger] short[j]).validator_index == w && short[i] != short[j];
                assert(arrived[i].validator_index == w && arrived[j].validator_index == w);
            }
            if sent_different_lists(arrived, w) && !sent_different_lists(short, w) {
                let (i, j) = choose|i: int, j: int|
                    0 <= i < j < arrived.len() && (#[trigger] arrived[i]).validator_index == w && (
                    #[trigger] arrived[j]).validator_index == w && arrived[i] != arrived[j];
                assert(short[i].validator_index == w);
                if j < n {
                    assert(short[j].validator_index == w);
                }
                assert(sent_a_list(short, v));
                if before.lists.contains(last) {
                    assert(arrived_first(short, last));
                    let k = choose|k: int| #[trigger] is_first_of_validator(short, k) && short[k] == last;
                    if i < k {
                        assert(short[i].validator_index != short[k].validator_index);
                    }
                    assert(short[k].validator_index == w);
                    assert(k < i);
                    assert(short[k] != short[i]);
                    assert(sent_different_lists(short, w));
                }
            }
            if after.equivocators.contains(w) && !before.equivocators.contains(w) {
                assert(w == v);
                assert(sent_a_list(short, v));
                let i = lemma_first_list(short, v);
                assert(arrived_first(short, short[i]));
                assert(before.lists.contains(short[i]));
                assert(short[i] != last);
                assert(arrived[i].validator_index == w && arrived[n].validator_index == w);
            }
        }
        assert forall|t: Seq<u8>| #[trigger] after.transactions.contains(t) <==> first_asks_for(
            arrived,
            t,
        ) by {
            assert(before.transactions.contains(t) <==> first_asks_for(short, t));
            if first_asks_for(short, t) {
                let i = choose|i: int| #[trigger]
                    is_first_of_validator(short, i) && short[i].transactions.contains(t);
                assert(is_first_of_validator(arrived, i) && arrived[i].transactions.contains(t));
            }
            if first_asks_for(arrived, t) {
                let i = choose|i: int| #[trigger]
                    is_first_of_validator(arrived, i) && arrived[i].transactions.contains(t);
                if i < n {
                    assert(is_first_of_validator(short, i) && short[i].transactions.contains(t));
                }
            }
            if is_first_of_validator(arrived, n) {
                assert(arrived[n] == last);
            }
            lemma_equivocators_were_seen(short, v);
        }
    }
}

proof fn lemma_equivocators_were_seen(arrived: Seq<SignedListView>, v: u64)
    ensures
        sent_different_lists(arrived, v) ==> sent_a_list(arrived, v),
{
    if sent_different_lists(arrived, v) {
        let (i, j) = choose|i: int, j: int|
            0 <= i < j < arrived.len() && (#[trigger] arrived[i]).validator_index == v && (
            #[trigger] arrived[j]).validator_index == v && arrived[i] != arrived[j];
        assert(arrived[i].validator_index == v);
    }
}

proof fn lemma_first_list(arrived: Seq<SignedListView>, v: u64) -> (i: int)
    requires
        sent_a_list(arrived, v),
    ensures
        is_first_of_validator(arrived, i),
        arrived[i].validator_index == v,
    decreases arrived.len(),
{
    let short = arrived.drop_last();
    let n = arrived.len() - 1;
    if sent_a_list(short, v) {
        let i = lemma_first_list(short, v);
        assert forall|j: int| 0 <= j < i implies (#[trigger] arrived[j]).validator_index
            != arrived[i].validator_index by {
            assert(short[j].validator_index != short[i].validator_index);
        }
        i
    } else {
        let k = choose|k: int| 0 <= k < arrived.len() && (#[trigger] arrived[k]).validator_index == v;
        if k < n {
            assert(short[k].validator_index == v);
        }
        assert forall|j: int| 0 <= j < n implies (#[trigger] arrived[j]).validator_index
            != arrived[n].validator_index by {
            assert(short[j] == arrived[j]);
        }
        n
    }
}

} // verus!
