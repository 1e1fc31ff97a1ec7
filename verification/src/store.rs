use vstd::prelude::*;
use vstd::pervasive::VecAdditionalExecFns;
use crate::error::BranchyError;
use crate::tag::{
    convert_attachment_tag, convert_tag, encode_attachment_tag, encode_state_tag,
    spec_attach_decode, spec_attach_encode, spec_decode_state_tag, spec_encode_state_tag,
    HrlB64WithContext,
};
use crate::unit::{clone_strings, spec_flags_of, spec_path_str, spec_tree_paths, Unit, UnitAbs};

verus! {

/// The content address of a stored unit record. The ledger assigns each
/// stored record a distinct address; hashing itself is the ledger's concern.
#[derive(Clone, Copy, Debug, PartialEq, Eq, Structural)]
pub struct EntryHash {
    pub value: usize,
}

/// The address of the ledger action that wrote a record.
#[derive(Clone, Copy, Debug, PartialEq, Eq, Structural)]
pub struct ActionHash {
    pub value: usize,
}

/// A stored record as handed back to callers: the writing action, the
/// content address, and the unit content.
#[derive(Clone, Debug)]
pub struct Record {
    pub action: ActionHash,
    pub entry: EntryHash,
    pub unit: Unit,
}

/// The index-derived view of a unit: content address, lifecycle state and
/// flag string as read back from an index-link tag. Not authoritative.
#[derive(Clone, Debug)]
pub struct UnitInfo {
    pub hash: EntryHash,
    pub state: String,
    pub flags: String,
}

/// What a mutation returns: the index view plus the stored record.
#[derive(Clone, Debug)]
pub struct UnitOutput {
    pub info: UnitInfo,
    pub record: Record,
}

/// Request payload for creating a unit in a given lifecycle state.
#[derive(Clone, Debug)]
pub struct UnitInput {
    pub state: String,
    pub unit: Unit,
}

/// Request payload for advancing a unit's lifecycle state.
#[derive(Clone, Debug)]
pub struct AdvanceStateInput {
    pub new_state: String,
    pub unit_hash: EntryHash,
}

/// Request payload for updating a unit in place.
#[derive(Clone, Debug)]
pub struct UpdateUnitInput {
    pub hash: EntryHash,
    pub state: String,
    pub unit: Unit,
}

/// Request payload for attaching or detaching an external reference.
#[derive(Debug)]
pub struct AddAttachmentInput {
    pub unit_hash: EntryHash,
    pub attachment: HrlB64WithContext,
}

/// An initial set of units to load, each with its starting state.
#[derive(Clone, Debug)]
pub struct Initialization {
    pub units: Vec<(String, Unit)>,
}

/// The entry kinds stored in the ledger.
pub enum EntryTypes {
    Unitx(Unit),
}

/// The link kinds of the secondary indexes: unit index links, tree path
/// anchors, state marks, and attachment links. The store keeps each kind in
/// its own collection.
pub enum LinkTypes {
    Unit,
    Tree,
    Mark,
    Attachment,
}

/// A secondary-index link: an edge from an index node (the global root
/// anchor or a tree-path node, here the node's path itself) to a unit's
/// content address, tagged with the encoded (state, flags) pair.
pub struct IndexLink {
    pub base: Vec<String>,
    pub target: EntryHash,
    pub tag: String,
}

/// The mathematical content of an index link.
pub ghost struct IndexLinkAbs {
    pub base: Seq<Seq<char>>,
    pub target: EntryHash,
    pub tag: Seq<char>,
}

impl View for IndexLink {
    type V = IndexLinkAbs;

    open spec fn view(&self) -> IndexLinkAbs {
        IndexLinkAbs { base: self.base.deep_view(), target: self.target, tag: self.tag@ }
    }
}

impl DeepView for IndexLink {
    type V = IndexLinkAbs;

    open spec fn deep_view(&self) -> IndexLinkAbs {
        self.view()
    }
}

/// An attachment link: an edge from a unit's content address to itself,
/// tagged with an encoded external reference.
pub struct AttachmentLink {
    pub base: EntryHash,
    pub tag: String,
}

/// The mathematical content of an attachment link.
pub ghost struct AttachmentLinkAbs {
    pub base: EntryHash,
    pub tag: Seq<char>,
}

impl View for AttachmentLink {
    type V = AttachmentLinkAbs;

    open spec fn view(&self) -> AttachmentLinkAbs {
        AttachmentLinkAbs { base: self.base, tag: self.tag@ }
    }
}

impl DeepView for AttachmentLink {
    type V = AttachmentLinkAbs;

    open spec fn deep_view(&self) -> AttachmentLinkAbs {
        self.view()
    }
}

impl DeepView for EntryHash {
    type V = EntryHash;

    open spec fn deep_view(&self) -> EntryHash {
        *self
    }
}

/// The unit store: an explicit model of the replicated ledger slice this
/// design works on. Records are append-only and content-addressed (a
/// record's address is its position); index and attachment links are the
/// mutable secondary indexes over them.
pub struct Store {
    pub records: Vec<Unit>,
    pub index_links: Vec<IndexLink>,
    pub attachment_links: Vec<AttachmentLink>,
}

/// The path of the global root anchor under which every unit is indexed.
pub open spec fn spec_units_base() -> Seq<Seq<char>> {
    seq!["units"@]
}

/// The global root anchor path.
pub fn get_units_path() -> (r: Vec<String>)
    ensures
        r.deep_view() == spec_units_base(),
{
    let mut r: Vec<String> = Vec::new();
    r.push(String::from_str("units"));
    proof {
        assert(r.deep_view() =~= spec_units_base());
    }
    r
}

/// The index links that `create_unit_links` adds for one unit: one link at
/// the global root anchor, then one per tree path, all tagged with the
/// encoded (state, flags) pair.
pub open spec fn spec_new_links(
    hash: EntryHash,
    paths: Seq<Seq<Seq<char>>>,
    state: Seq<char>,
    flags: Seq<char>,
) -> Seq<IndexLinkAbs> {
    seq![
        IndexLinkAbs {
            base: spec_units_base(),
            target: hash,
            tag: spec_encode_state_tag(state, flags),
        },
    ] + Seq::new(
        paths.len(),
        |i: int|
            IndexLinkAbs {
                base: paths[i],
                target: hash,
                tag: spec_encode_state_tag(state, flags),
            },
    )
}

/// The index links that a bulk load creates: for each (state, unit) of the
/// list, in order, the links `create_unit_links` adds for it, under the
/// consecutive addresses the ledger assigns starting at `base`.
pub open spec fn spec_bulk_links(units: Seq<(String, Unit)>, base: nat) -> Seq<IndexLinkAbs>
    decreases units.len(),
{
    if units.len() == 0 {
        Seq::empty()
    } else {
        spec_new_links(
            (EntryHash { value: base as usize }),
            spec_tree_paths(units[0].1@),
            units[0].0@,
            spec_flags_of(units[0].1@.meta),
        ) + spec_bulk_links(units.skip(1), base + 1)
    }
}

/// Loading one more unit at the end of a bulk load appends exactly that
/// unit's index links.
pub proof fn lemma_bulk_links_snoc(units: Seq<(String, Unit)>, u: (String, Unit), base: nat)
    ensures
        spec_bulk_links(units.push(u), base) == spec_bulk_links(units, base) + spec_new_links(
            (EntryHash { value: (base + units.len()) as usize }),
            spec_tree_paths(u.1@),
            u.0@,
            spec_flags_of(u.1@.meta),
        ),
    decreases units.len(),
{
    let one = spec_new_links(
        (EntryHash { value: (base + units.len()) as usize }),
        spec_tree_paths(u.1@),
        u.0@,
        spec_flags_of(u.1@.meta),
    );
    if units.len() == 0 {
        assert(units.push(u)[0] == u);
        assert(units.push(u).skip(1) =~= Seq::<(String, Unit)>::empty());
        assert(spec_bulk_links(units.push(u).skip(1), base + 1)
            == Seq::<IndexLinkAbs>::empty());
        assert(spec_bulk_links(units.push(u), base) =~= one);
        assert(spec_bulk_links(units, base) + one =~= one);
    } else {
        assert(units.push(u)[0] == units[0]);
        assert(units.push(u).skip(1) =~= units.skip(1).push(u));
        lemma_bulk_links_snoc(units.skip(1), u, base + 1);
        assert(units.skip(1).len() == units.len() - 1);
        let head = spec_new_links(
            (EntryHash { value: base as usize }),
            spec_tree_paths(units[0].1@),
            units[0].0@,
            spec_flags_of(units[0].1@.meta),
        );
        assert(spec_bulk_links(units.push(u), base) == head + (spec_bulk_links(
            units.skip(1),
            base + 1,
        ) + one));
        assert(head + (spec_bulk_links(units.skip(1), base + 1) + one) =~= (head
            + spec_bulk_links(units.skip(1), base + 1)) + one);
    }
}

/// Whether `deleteIndexLinks` for `target` over `paths` removes this link:
/// the link points at `target` and sits at the root anchor or at one of the
/// given tree paths.
pub open spec fn spec_delete_match(
    l: IndexLinkAbs,
    target: EntryHash,
    paths: Seq<Seq<Seq<char>>>,
) -> bool {
    l.target == target && (l.base == spec_units_base() || paths.contains(l.base))
}

/// Whether an index link hangs on the global root anchor.
pub open spec fn spec_is_root_link(l: IndexLinkAbs) -> bool {
    l.base == spec_units_base()
}

/// The (target, tag) pairs of the index links at the global root anchor, in
/// index order.
pub open spec fn spec_root_pairs(s: Store) -> Seq<(EntryHash, Seq<char>)> {
    s.index_links.deep_view().filter(|l: IndexLinkAbs| spec_is_root_link(l)).map_values(
        |l: IndexLinkAbs| (l.target, l.tag),
    )
}

/// The tag of the last pair pointing at `t`, or the empty tag when none
/// does; listing decodes the last tag written for a unit, as a map built by
/// insertion would hold it.
pub open spec fn spec_last_tag(pairs: Seq<(EntryHash, Seq<char>)>, t: EntryHash) -> Seq<char>
    decreases pairs.len(),
{
    if pairs.len() == 0 {
        Seq::empty()
    } else if pairs.last().0 == t {
        pairs.last().1
    } else {
        spec_last_tag(pairs.drop_last(), t)
    }
}

/// One listing entry for the unit at address `t`: the address, the decoded
/// state and flags of its last root tag, and the stored unit.
pub open spec fn spec_gu_entry(s: Store, all: Seq<(EntryHash, Seq<char>)>, t: EntryHash) -> (
    EntryHash,
    Seq<char>,
    Seq<char>,
    Unit,
) {
    let p = spec_decode_state_tag(spec_last_tag(all, t))->Some_0;
    (t, p.0, p.1, s.records@[t.value as int])
}

/// The listing built from the root links in order: the first link whose
/// target resolves emits that unit's entry, later links to the same unit
/// are skipped, dangling links are dropped.
pub open spec fn spec_gu_rec(
    s: Store,
    pairs: Seq<(EntryHash, Seq<char>)>,
    all: Seq<(EntryHash, Seq<char>)>,
    seen: Set<EntryHash>,
) -> Seq<(EntryHash, Seq<char>, Seq<char>, Unit)>
    decreases pairs.len(),
{
    if pairs.len() == 0 {
        Seq::empty()
    } else {
        let t = pairs[0].0;
        if t.value < s.records@.len() && !seen.contains(t) {
            seq![spec_gu_entry(s, all, t)] + spec_gu_rec(s, pairs.skip(1), all, seen.insert(t))
        } else {
            spec_gu_rec(s, pairs.skip(1), all, seen)
        }
    }
}

/// The full listing at the global root anchor.
pub open spec fn spec_get_units(s: Store) -> Seq<(EntryHash, Seq<char>, Seq<char>, Unit)> {
    spec_gu_rec(s, spec_root_pairs(s), spec_root_pairs(s), Set::empty())
}

/// Whether a vector of outputs carries exactly the entries of a listing.
pub open spec fn outputs_match(
    outs: Seq<UnitOutput>,
    g: Seq<(EntryHash, Seq<char>, Seq<char>, Unit)>,
) -> bool {
    &&& outs.len() == g.len()
    &&& forall|i: int|
        0 <= i < g.len() ==> {
            &&& (#[trigger] outs[i]).info.hash == g[i].0
            &&& outs[i].info.state@ == g[i].1
            &&& outs[i].info.flags@ == g[i].2
            &&& outs[i].record.entry == g[i].0
            &&& outs[i].record.action.value == g[i].0.value
            &&& outs[i].record.unit@ == g[i].3@
        }
}

/// In a well-formed store every root pair resolves and its tag decodes.
pub proof fn lemma_root_pairs_wf(s: Store)
    requires
        store_wf(s),
    ensures
        forall|k: int|
            0 <= k < spec_root_pairs(s).len() ==> (#[trigger] spec_root_pairs(s)[k]).0.value
                < s.records@.len() && spec_decode_state_tag(spec_root_pairs(s)[k].1) is Some,
{
    let links = s.index_links.deep_view();
    let flt = links.filter(|l: IndexLinkAbs| spec_is_root_link(l));
    lemma_filter_elements(links, |l: IndexLinkAbs| spec_is_root_link(l));
    assert forall|k: int| 0 <= k < spec_root_pairs(s).len() implies (
    #[trigger] spec_root_pairs(s)[k]).0.value < s.records@.len() && spec_decode_state_tag(
        spec_root_pairs(s)[k].1,
    ) is Some by {
        assert(spec_root_pairs(s)[k] == (flt[k].target, flt[k].tag));
        assert(links.contains(flt[k]));
        let w = choose|w: int| 0 <= w < links.len() && links[w] == flt[k];
        assert(links[w].target.value < s.records.len());
    }
}

/// When `t` occurs among the pairs, its last tag is the tag of one of the
/// pairs pointing at `t`.
pub proof fn lemma_last_tag_occurs(pairs: Seq<(EntryHash, Seq<char>)>, t: EntryHash)
    requires
        exists|k: int| 0 <= k < pairs.len() && (#[trigger] pairs[k]).0 == t,
    ensures
        exists|k: int|
            0 <= k < pairs.len() && (#[trigger] pairs[k]).0 == t && spec_last_tag(pairs, t)
                == pairs[k].1,
    decreases pairs.len(),
{
    if pairs.last().0 == t {
        assert(pairs[pairs.len() - 1].0 == t && spec_last_tag(pairs, t) == pairs[pairs.len()
            - 1].1);
    } else {
        let k = choose|k: int| 0 <= k < pairs.len() && (#[trigger] pairs[k]).0 == t;
        assert(k < pairs.len() - 1);
        assert(pairs.drop_last()[k].0 == t);
        lemma_last_tag_occurs(pairs.drop_last(), t);
        let w = choose|w: int|
            0 <= w < pairs.drop_last().len() && (#[trigger] pairs.drop_last()[w]).0 == t
                && spec_last_tag(pairs.drop_last(), t) == pairs.drop_last()[w].1;
        assert(pairs[w].0 == t && spec_last_tag(pairs, t) == pairs[w].1);
    }
}

/// Appending a pair for a different target leaves a unit's last tag as it
/// was.
pub proof fn lemma_last_tag_push_other(
    all: Seq<(EntryHash, Seq<char>)>,
    x: (EntryHash, Seq<char>),
    t: EntryHash,
)
    requires
        x.0 != t,
    ensures
        spec_last_tag(all.push(x), t) == spec_last_tag(all, t),
{
    assert(all.push(x).last() == x);
    assert(all.push(x).drop_last() =~= all);
}

/// The listing of a set of pairs does not change when a fresh record is
/// appended to the store and the tag lookup context keeps every listed
/// unit's last tag.
pub proof fn lemma_gu_stable(
    s: Store,
    s2: Store,
    pairs: Seq<(EntryHash, Seq<char>)>,
    all: Seq<(EntryHash, Seq<char>)>,
    all2: Seq<(EntryHash, Seq<char>)>,
    seen: Set<EntryHash>,
    u: Unit,
)
    requires
        s2.records@ == s.records@.push(u),
        forall|k: int| 0 <= k < pairs.len() ==> (#[trigger] pairs[k]).0.value < s.records@.len(),
        forall|k: int|
            0 <= k < pairs.len() ==> spec_last_tag(all2, (#[trigger] pairs[k]).0) == spec_last_tag(
                all,
                pairs[k].0,
            ),
    ensures
        spec_gu_rec(s2, pairs, all2, seen) == spec_gu_rec(s, pairs, all, seen),
    decreases pairs.len(),
{
    if pairs.len() > 0 {
        let t = pairs[0].0;
        assert(forall|k: int|
            0 <= k < pairs.skip(1).len() ==> (#[trigger] pairs.skip(1)[k]) == pairs[k + 1]);
        if t.value < s.records@.len() && !seen.contains(t) {
            lemma_gu_stable(s, s2, pairs.skip(1), all, all2, seen.insert(t), u);
            assert(spec_gu_entry(s2, all2, t) == spec_gu_entry(s, all, t));
        } else {
            lemma_gu_stable(s, s2, pairs.skip(1), all, all2, seen, u);
        }
    }
}

/// Appending a pair for a fresh, resolvable unit appends exactly that
/// unit's entry to the listing.
pub proof fn lemma_gu_push(
    s2: Store,
    pairs: Seq<(EntryHash, Seq<char>)>,
    all2: Seq<(EntryHash, Seq<char>)>,
    x: (EntryHash, Seq<char>),
    seen: Set<EntryHash>,
)
    requires
        x.0.value < s2.records@.len(),
        !seen.contains(x.0),
        forall|k: int| 0 <= k < pairs.len() ==> (#[trigger] pairs[k]).0 != x.0,
    ensures
        spec_gu_rec(s2, pairs.push(x), all2, seen) == spec_gu_rec(s2, pairs, all2, seen).push(
            spec_gu_entry(s2, all2, x.0),
        ),
    decreases pairs.len(),
{
    if pairs.len() == 0 {
        let whole = pairs.push(x);
        assert(whole.len() == 1);
        assert(whole[0] == x);
        assert(whole.skip(1) =~= Seq::<(EntryHash, Seq<char>)>::empty());
        assert(spec_gu_rec(s2, whole.skip(1), all2, seen.insert(x.0))
            == Seq::<(EntryHash, Seq<char>, Seq<char>, Unit)>::empty());
        assert(spec_gu_rec(s2, whole, all2, seen) == seq![spec_gu_entry(s2, all2, x.0)]
            + Seq::<(EntryHash, Seq<char>, Seq<char>, Unit)>::empty());
        assert(spec_gu_rec(s2, whole, all2, seen) =~= seq![spec_gu_entry(s2, all2, x.0)]);
        assert(spec_gu_rec(s2, pairs, all2, seen).push(spec_gu_entry(s2, all2, x.0)) =~= seq![
            spec_gu_entry(s2, all2, x.0),
        ]);
    } else {
        let t = pairs[0].0;
        assert(pairs.push(x)[0] == pairs[0]);
        assert(pairs.push(x).skip(1) =~= pairs.skip(1).push(x));
        assert(forall|k: int|
            0 <= k < pairs.skip(1).len() ==> (#[trigger] pairs.skip(1)[k]) == pairs[k + 1]);
        if t.value < s2.records@.len() && !seen.contains(t) {
            lemma_gu_push(s2, pairs.skip(1), all2, x, seen.insert(t));
            assert(seq![spec_gu_entry(s2, all2, t)] + spec_gu_rec(
                s2,
                pairs.skip(1),
                all2,
                seen.insert(t),
            ).push(spec_gu_entry(s2, all2, x.0)) =~= (seq![spec_gu_entry(s2, all2, t)]
                + spec_gu_rec(s2, pairs.skip(1), all2, seen.insert(t))).push(
                spec_gu_entry(s2, all2, x.0),
            ));
        } else {
            lemma_gu_push(s2, pairs.skip(1), all2, x, seen);
        }
    }
}

/// Whether an attachment link with this base and tag exists.
pub open spec fn spec_has_attachment(
    links: Seq<AttachmentLinkAbs>,
    base: EntryHash,
    tag: Seq<char>,
) -> bool {
    exists|k: int|
        0 <= k < links.len() && (#[trigger] links[k]).base == base && links[k].tag == tag
}

/// Adding an attachment link: nothing when an identical link already
/// exists, else exactly one appended — the set semantics of the
/// attachment index.
pub open spec fn spec_add_attachment(
    links: Seq<AttachmentLinkAbs>,
    base: EntryHash,
    tag: Seq<char>,
) -> Seq<AttachmentLinkAbs> {
    if spec_has_attachment(links, base, tag) {
        links
    } else {
        links.push(AttachmentLinkAbs { base: base, tag: tag })
    }
}

/// How many attachment links carry this base and tag.
pub open spec fn spec_count_attachment(
    links: Seq<AttachmentLinkAbs>,
    base: EntryHash,
    tag: Seq<char>,
) -> nat {
    links.filter(|l: AttachmentLinkAbs| l.base == base && l.tag == tag).len()
}

/// Adding the same attachment twice leaves exactly what one addition
/// leaves; and on an index that did not hold it, one addition leaves
/// exactly one link carrying it.
pub proof fn lemma_add_attachment_dedup(
    links: Seq<AttachmentLinkAbs>,
    base: EntryHash,
    tag: Seq<char>,
)
    ensures
        spec_add_attachment(spec_add_attachment(links, base, tag), base, tag)
            == spec_add_attachment(links, base, tag),
        spec_has_attachment(spec_add_attachment(links, base, tag), base, tag),
        !spec_has_attachment(links, base, tag) ==> spec_count_attachment(
            spec_add_attachment(links, base, tag),
            base,
            tag,
        ) == 1,
{
    let l2 = spec_add_attachment(links, base, tag);
    if !spec_has_attachment(links, base, tag) {
        assert(l2[l2.len() - 1].base == base && l2[l2.len() - 1].tag == tag);
        let pred = |l: AttachmentLinkAbs| l.base == base && l.tag == tag;
        assert(forall|k: int| 0 <= k < links.len() ==> !pred(#[trigger] links[k]));
        lemma_filter_none(links, pred);
        reveal(Seq::filter);
        assert(l2.drop_last() =~= links);
        assert(l2.filter(pred) =~= links.filter(pred).push(l2.last()));
    }
}

/// The in-place replacement of one unit's content, before any cascade:
/// `s2` is `s1` with the unit at `hash` deleted from the index at its old
/// tree paths, the new content stored under a fresh address, and fresh
/// index links created from the new content.
pub open spec fn spec_update_step(
    s1: Store,
    hash: EntryHash,
    new_unit: Unit,
    state: Seq<char>,
    s2: Store,
) -> bool {
    &&& s2.records@.len() == s1.records@.len() + 1
    &&& s2.records@.take(s1.records@.len() as int) == s1.records@
    &&& s2.records@.last()@ == new_unit@
    &&& s2.index_links.deep_view() == spec_reindexed_links(
        s1.index_links.deep_view(),
        hash,
        spec_tree_paths(spec_old_unit(s1, hash)),
        (EntryHash { value: s1.records@.len() as usize }),
        spec_tree_paths(new_unit@),
        state,
        spec_flags_of(new_unit@.meta),
    )
    &&& s2.attachment_links == s1.attachment_links
}

/// The descendants found strictly below a primary tree path: the target
/// and decoded state of every index link whose node lies under it, in
/// index order.
pub open spec fn spec_descendants(
    links: Seq<IndexLinkAbs>,
    primary: Seq<Seq<char>>,
) -> Seq<(EntryHash, Seq<char>)> {
    links.filter(|l: IndexLinkAbs| spec_strictly_under(l.base, primary)).map_values(
        |l: IndexLinkAbs| (l.target, (spec_decode_state_tag(l.tag)->Some_0).0),
    )
}

/// The step relation of one descendant rewrite: `s2` is `s1` after
/// `reparent_unit` of the unit at address `d.0`, reindexed under its own
/// state `d.1` with its first `from`-prefixed parent rewritten to `to`.
pub open spec fn spec_reparent_step(
    s1: Store,
    d: (EntryHash, Seq<char>),
    from: Seq<char>,
    to: Seq<char>,
    s2: Store,
) -> bool {
    &&& d.0.value < s1.records@.len()
    &&& s2.records@.len() == s1.records@.len() + 1
    &&& s2.records@.take(s1.records@.len() as int) == s1.records@
    &&& s2.records@.last()@ == spec_reparented(spec_old_unit(s1, d.0), from, to)
    &&& s2.index_links.deep_view() == spec_reindexed_links(
        s1.index_links.deep_view(),
        d.0,
        spec_tree_paths(spec_old_unit(s1, d.0)),
        (EntryHash { value: s1.records@.len() as usize }),
        spec_tree_paths(spec_reparented(spec_old_unit(s1, d.0), from, to)),
        d.1,
        spec_flags_of(spec_old_unit(s1, d.0).meta),
    )
    &&& s2.attachment_links == s1.attachment_links
}

/// The whole cascade of a move: `s2` is `s1` after each listed descendant
/// was rewritten in turn by the step relation.
pub open spec fn spec_cascade(
    s1: Store,
    ds: Seq<(EntryHash, Seq<char>)>,
    from: Seq<char>,
    to: Seq<char>,
    s2: Store,
) -> bool
    decreases ds.len(),
{
    if ds.len() == 0 {
        s2 == s1
    } else {
        exists|m: Store|
            #[trigger] spec_reparent_step(s1, ds[0], from, to, m) && spec_cascade(
                m,
                ds.skip(1),
                from,
                to,
                s2,
            )
    }
}

/// Extending a cascade by one more step at its end.
pub proof fn lemma_cascade_snoc(
    s1: Store,
    ds: Seq<(EntryHash, Seq<char>)>,
    d: (EntryHash, Seq<char>),
    from: Seq<char>,
    to: Seq<char>,
    s2: Store,
    s3: Store,
)
    requires
        spec_cascade(s1, ds, from, to, s2),
        spec_reparent_step(s2, d, from, to, s3),
    ensures
        spec_cascade(s1, ds.push(d), from, to, s3),
    decreases ds.len(),
{
    if ds.len() == 0 {
        assert(ds.push(d)[0] == d);
        assert(ds.push(d).skip(1) =~= Seq::<(EntryHash, Seq<char>)>::empty());
        assert(spec_cascade(s3, ds.push(d).skip(1), from, to, s3));
    } else {
        let m = choose|m: Store|
            #[trigger] spec_reparent_step(s1, ds[0], from, to, m) && spec_cascade(
                m,
                ds.skip(1),
                from,
                to,
                s2,
            );
        lemma_cascade_snoc(m, ds.skip(1), d, from, to, s2, s3);
        assert(ds.push(d)[0] == ds[0]);
        assert(ds.push(d).skip(1) =~= ds.skip(1).push(d));
        assert(spec_reparent_step(s1, ds.push(d)[0], from, to, m));
    }
}

/// The index after one unit's reindex during a move: its links at its old
/// tree paths and the root anchor removed, fresh links for the new address
/// appended.
pub open spec fn spec_reindexed_links(
    links: Seq<IndexLinkAbs>,
    old_hash: EntryHash,
    old_paths: Seq<Seq<Seq<char>>>,
    new_hash: EntryHash,
    new_paths: Seq<Seq<Seq<char>>>,
    state: Seq<char>,
    flags: Seq<char>,
) -> Seq<IndexLinkAbs> {
    links.filter(|l: IndexLinkAbs| !spec_delete_match(l, old_hash, old_paths)) + spec_new_links(
        new_hash,
        new_paths,
        state,
        flags,
    )
}

/// What a descendant's reindex during a move leaves in the index: the
/// rewritten unit is found by a lookup at each of its new tree paths, and a
/// lookup at any of its old tree paths no longer returns the moved unit --
/// neither under its old address nor under its new one at a path it left.
pub proof fn lemma_reparent_moves_links(
    links: Seq<IndexLinkAbs>,
    old_hash: EntryHash,
    new_hash: EntryHash,
    old_paths: Seq<Seq<Seq<char>>>,
    new_paths: Seq<Seq<Seq<char>>>,
    state: Seq<char>,
    flags: Seq<char>,
)
    requires
        old_hash != new_hash,
    ensures
        spec_reindexed_links(links, old_hash, old_paths, new_hash, new_paths, state, flags).len()
            == links.filter(|l: IndexLinkAbs| !spec_delete_match(l, old_hash, old_paths)).len() + 1
            + new_paths.len(),
        forall|j: int|
            #![trigger new_paths[j]]
            0 <= j < new_paths.len() ==> spec_reindexed_links(
                links,
                old_hash,
                old_paths,
                new_hash,
                new_paths,
                state,
                flags,
            )[links.filter(|l: IndexLinkAbs| !spec_delete_match(l, old_hash, old_paths)).len() + 1
                + j].base == new_paths[j] && spec_reindexed_links(
                links,
                old_hash,
                old_paths,
                new_hash,
                new_paths,
                state,
                flags,
            )[links.filter(|l: IndexLinkAbs| !spec_delete_match(l, old_hash, old_paths)).len() + 1
                + j].target == new_hash,
        forall|k: int|
            0 <= k < spec_reindexed_links(
                links,
                old_hash,
                old_paths,
                new_hash,
                new_paths,
                state,
                flags,
            ).len() && old_paths.contains(
                (#[trigger] spec_reindexed_links(
                    links,
                    old_hash,
                    old_paths,
                    new_hash,
                    new_paths,
                    state,
                    flags,
                )[k]).base,
            ) ==> spec_reindexed_links(
                links,
                old_hash,
                old_paths,
                new_hash,
                new_paths,
                state,
                flags,
            )[k].target != old_hash,
{
    let keep = |l: IndexLinkAbs| !spec_delete_match(l, old_hash, old_paths);
    let added = spec_new_links(new_hash, new_paths, state, flags);
    let links2 = spec_reindexed_links(links, old_hash, old_paths, new_hash, new_paths, state, flags);
    assert(links2 == links.filter(keep) + added);
    assert forall|j: int| #![trigger new_paths[j]] 0 <= j < new_paths.len() implies links2[links.filter(
        keep,
    ).len() + 1 + j].base == new_paths[j] && links2[links.filter(keep).len() + 1
        + j].target == new_hash by {
        let k = links.filter(keep).len() + 1 + j;
        assert(links2[k] == added[1 + j]);
    }
    lemma_filter_elements_pred(links, keep);
    assert forall|k: int|
        0 <= k < links2.len() && old_paths.contains(
            (#[trigger] links2[k]).base,
        ) implies links2[k].target != old_hash by {
        if k < links.filter(keep).len() {
            assert(keep(links.filter(keep)[k]));
        } else {
            assert(links2[k] == added[k - links.filter(keep).len()]);
            assert(links2[k].target == new_hash);
        }
    }
}

/// Every element of a filtered sequence passes the filter's test.
pub proof fn lemma_filter_elements_pred<A>(s: Seq<A>, pred: spec_fn(A) -> bool)
    ensures
        forall|k: int| 0 <= k < s.filter(pred).len() ==> pred(#[trigger] s.filter(pred)[k]),
    decreases s.len(),
{
    reveal(Seq::filter);
    if s.len() > 0 {
        lemma_filter_elements_pred(s.drop_last(), pred);
    }
}

/// The encoded attachment tag of an external reference.
pub open spec fn spec_attachment_tag(att: HrlB64WithContext) -> Seq<char> {
    spec_attach_encode(att.hrl.0@, att.hrl.1@, att.context.deep_view())
}

/// Whether an external reference fits the attachment tag's length fields.
pub open spec fn spec_attachment_fits(att: HrlB64WithContext) -> bool {
    att.hrl.0@.len() < 100000000 && att.hrl.1@.len() < 100000000
}

/// The stored content of the unit at address `h`.
pub open spec fn spec_old_unit(s: Store, h: EntryHash) -> UnitAbs {
    s.records@[h.value as int]@
}

/// Well-formedness of the store: every index link points at a stored record
/// and carries a decodable (state, flags) tag.
pub open spec fn store_wf(s: Store) -> bool {
    &&& forall|i: int|
        0 <= i < s.index_links.deep_view().len() ==> (#[trigger] s.index_links.deep_view()[i]).target.value
            < s.records.len()
    &&& forall|i: int|
        0 <= i < s.index_links.deep_view().len() ==> spec_decode_state_tag(
            (#[trigger] s.index_links.deep_view()[i]).tag,
        ) is Some
}

/// Whether two path values are the same path.
pub fn path_eq(a: &Vec<String>, b: &Vec<String>) -> (r: bool)
    ensures
        r == (a.deep_view() == b.deep_view()),
{
    if a.len() != b.len() {
        proof {
            assert(a.deep_view().len() == a@.len());
            assert(b.deep_view().len() == b@.len());
        }
        return false;
    }
    let mut i: usize = 0;
    while i < a.len()
        invariant
            i <= a.len(),
            a.len() == b.len(),
            forall|k: int| 0 <= k < i ==> a.deep_view()[k] == b.deep_view()[k],
        decreases a.len() - i,
    {
        if !(a[i] == b[i]) {
            proof {
                assert(a.deep_view()[i as int] != b.deep_view()[i as int]);
            }
            return false;
        }
        i = i + 1;
    }
    proof {
        assert(a.deep_view() =~= b.deep_view());
    }
    true
}

/// Whether a list of paths holds the given path.
pub fn paths_contain(paths: &Vec<Vec<String>>, p: &Vec<String>) -> (r: bool)
    ensures
        r == paths.deep_view().contains(p.deep_view()),
{
    let mut i: usize = 0;
    while i < paths.len()
        invariant
            i <= paths.len(),
            forall|k: int| 0 <= k < i ==> paths.deep_view()[k] != p.deep_view(),
        decreases paths.len() - i,
    {
        if path_eq(&paths[i], p) {
            proof {
                assert(paths.deep_view()[i as int] == p.deep_view());
            }
            return true;
        }
        i = i + 1;
    }
    proof {
        assert(forall|k: int| 0 <= k < paths.deep_view().len() ==> paths.deep_view()[k]
            != p.deep_view());
    }
    false
}

/// Filtering a sequence none of whose elements passes gives the empty
/// sequence.
pub proof fn lemma_filter_none<A>(s: Seq<A>, pred: spec_fn(A) -> bool)
    requires
        forall|k: int| 0 <= k < s.len() ==> !pred(#[trigger] s[k]),
    ensures
        s.filter(pred) == Seq::<A>::empty(),
    decreases s.len(),
{
    reveal(Seq::filter);
    if s.len() > 0 {
        lemma_filter_none(s.drop_last(), pred);
    }
}

/// Every element of a filtered sequence is an element of the original.
pub proof fn lemma_filter_elements<A>(s: Seq<A>, pred: spec_fn(A) -> bool)
    ensures
        forall|k: int|
            0 <= k < s.filter(pred).len() ==> s.contains(#[trigger] s.filter(pred)[k]),
    decreases s.len(),
{
    reveal(Seq::filter);
    if s.len() > 0 {
        lemma_filter_elements(s.drop_last(), pred);
        assert forall|k: int| 0 <= k < s.filter(pred).len() implies s.contains(
            #[trigger] s.filter(pred)[k],
        ) by {
            let sub = s.drop_last().filter(pred);
            if k < sub.len() {
                assert(s.drop_last().contains(sub[k]));
                let w = choose|w: int| 0 <= w < s.drop_last().len() && s.drop_last()[w] == sub[k];
                assert(s[w] == sub[k]);
            } else {
                assert(s.filter(pred)[k] == s.last());
            }
        }
    }
}

/// Whether `s` starts with `prefix`.
pub open spec fn spec_starts_with(s: Seq<char>, prefix: Seq<char>) -> bool {
    prefix.len() <= s.len() && s.take(prefix.len() as int) == prefix
}

/// The index of the first parent entry starting with `from`, or `-1` when
/// none does.
pub open spec fn spec_first_match(parents: Seq<Seq<char>>, from: Seq<char>) -> int
    decreases parents.len(),
{
    if parents.len() == 0 {
        -1
    } else if spec_starts_with(parents[0], from) {
        0
    } else {
        let r = spec_first_match(parents.skip(1), from);
        if r == -1 {
            -1
        } else {
            r + 1
        }
    }
}

/// The reparenting rewrite: the first parent entry starting with `from` has
/// that prefix replaced by `to`; every other entry stays as it is, even
/// when it also starts with `from`.
pub open spec fn spec_rewrite_parents(
    parents: Seq<Seq<char>>,
    from: Seq<char>,
    to: Seq<char>,
) -> Seq<Seq<char>> {
    let i = spec_first_match(parents, from);
    if i == -1 {
        parents
    } else {
        parents.update(i, to + parents[i].skip(from.len() as int))
    }
}

/// The content of a unit after the reparenting rewrite of its parents.
pub open spec fn spec_reparented(u: UnitAbs, from: Seq<char>, to: Seq<char>) -> UnitAbs {
    UnitAbs {
        parents: spec_rewrite_parents(u.parents, from, to),
        description: u.description,
        name: u.name,
        stewards: u.stewards,
        meta: u.meta,
    }
}

/// Whether an update moves the unit: its display path or its name changed.
pub open spec fn spec_reparenting(old_u: UnitAbs, new_u: UnitAbs) -> bool {
    spec_path_str(new_u) != spec_path_str(old_u) || old_u.name != new_u.name
}

/// Whether `base` lies strictly below `prefix` in the path tree.
pub open spec fn spec_strictly_under(base: Seq<Seq<char>>, prefix: Seq<Seq<char>>) -> bool {
    base.len() > prefix.len() && base.take(prefix.len() as int) == prefix
}

/// When the first match stands at `i`, `spec_first_match` returns `i`.
pub proof fn lemma_first_match_at(parents: Seq<Seq<char>>, from: Seq<char>, i: int)
    requires
        0 <= i < parents.len(),
        spec_starts_with(parents[i], from),
        forall|k: int| 0 <= k < i ==> !spec_starts_with(#[trigger] parents[k], from),
    ensures
        spec_first_match(parents, from) == i,
    decreases i,
{
    if i > 0 {
        assert(forall|k: int|
            0 <= k < parents.skip(1).len() ==> (#[trigger] parents.skip(1)[k]) == parents[k + 1]);
        lemma_first_match_at(parents.skip(1), from, i - 1);
    }
}

/// When no parent entry starts with `from`, `spec_first_match` returns `-1`.
pub proof fn lemma_first_match_none(parents: Seq<Seq<char>>, from: Seq<char>)
    requires
        forall|k: int| 0 <= k < parents.len() ==> !spec_starts_with(#[trigger] parents[k], from),
    ensures
        spec_first_match(parents, from) == -1,
    decreases parents.len(),
{
    if parents.len() > 0 {
        assert(forall|k: int|
            0 <= k < parents.skip(1).len() ==> (#[trigger] parents.skip(1)[k]) == parents[k + 1]);
        lemma_first_match_none(parents.skip(1), from);
    }
}

/// The reparenting rewrite touches exactly the first `from`-prefixed entry:
/// it gets `to` in place of the `from` prefix, every other entry — and the
/// list's length — stays unchanged.
pub proof fn lemma_rewrite_parents(parents: Seq<Seq<char>>, from: Seq<char>, to: Seq<char>)
    requires
        exists|k: int| 0 <= k < parents.len() && spec_starts_with(#[trigger] parents[k], from),
    ensures
        spec_rewrite_parents(parents, from, to).len() == parents.len(),
        0 <= spec_first_match(parents, from) < parents.len(),
        spec_starts_with(parents[spec_first_match(parents, from)], from),
        forall|k: int|
            0 <= k < spec_first_match(parents, from) ==> !spec_starts_with(
                #[trigger] parents[k],
                from,
            ),
        spec_rewrite_parents(parents, from, to)[spec_first_match(parents, from)] == to
            + parents[spec_first_match(parents, from)].skip(from.len() as int),
        forall|k: int|
            0 <= k < parents.len() && k != spec_first_match(parents, from) ==> spec_rewrite_parents(
                parents,
                from,
                to,
            )[k] == parents[k],
    decreases parents.len(),
{
    if spec_starts_with(parents[0], from) {
        lemma_first_match_at(parents, from, 0);
    } else {
        let k = choose|k: int|
            0 <= k < parents.len() && spec_starts_with(#[trigger] parents[k], from);
        assert(k > 0);
        assert(forall|j: int|
            0 <= j < parents.skip(1).len() ==> (#[trigger] parents.skip(1)[j]) == parents[j + 1]);
        assert(spec_starts_with(parents.skip(1)[k - 1], from));
        lemma_rewrite_parents(parents.skip(1), from, to);
        let i1 = spec_first_match(parents.skip(1), from);
        assert forall|j: int| 0 <= j < i1 + 1 implies !spec_starts_with(
            #[trigger] parents[j],
            from,
        ) by {
            if j > 0 {
                assert(parents[j] == parents.skip(1)[j - 1]);
            }
        }
        lemma_first_match_at(parents, from, i1 + 1);
    }
}

/// Whether `s` starts with the characters of `prefix`.
pub fn starts_with_str(s: &String, prefix: &String) -> (r: bool)
    ensures
        r == spec_starts_with(s@, prefix@),
{
    let n = s.as_str().unicode_len();
    let p = prefix.as_str().unicode_len();
    if p > n {
        return false;
    }
    let mut i: usize = 0;
    while i < p
        invariant
            i <= p,
            p == prefix@.len(),
            n == s@.len(),
            p <= n,
            forall|k: int| 0 <= k < i ==> s@[k] == prefix@[k],
        decreases p - i,
    {
        if s.as_str().get_char(i) != prefix.as_str().get_char(i) {
            proof {
                assert(s@.take(p as int)[i as int] != prefix@[i as int]);
            }
            return false;
        }
        i = i + 1;
    }
    proof {
        assert(s@.take(p as int) =~= prefix@);
    }
    true
}

/// Whether `base` lies strictly below `prefix` in the path tree.
pub fn path_strictly_under(base: &Vec<String>, prefix: &Vec<String>) -> (r: bool)
    ensures
        r == spec_strictly_under(base.deep_view(), prefix.deep_view()),
{
    if base.len() <= prefix.len() {
        proof {
            assert(base.deep_view().len() == base@.len());
            assert(prefix.deep_view().len() == prefix@.len());
        }
        return false;
    }
    let mut i: usize = 0;
    while i < prefix.len()
        invariant
            i <= prefix.len(),
            base.len() > prefix.len(),
            forall|k: int| 0 <= k < i ==> base.deep_view()[k] == prefix.deep_view()[k],
        decreases prefix.len() - i,
    {
        if !(base[i] == prefix[i]) {
            proof {
                assert(base.deep_view().take(prefix.deep_view().len() as int)[i as int]
                    != prefix.deep_view()[i as int]);
            }
            return false;
        }
        i = i + 1;
    }
    proof {
        assert(base.deep_view().take(prefix.deep_view().len() as int) =~= prefix.deep_view());
    }
    true
}

/// The index of the first parent entry starting with `from`, when any does.
pub fn find_first_match(parents: &Vec<String>, from: &String) -> (r: (bool, usize))
    ensures
        r.0 ==> r.1 < parents.len() && spec_first_match(parents.deep_view(), from@) == r.1 as int
            && spec_starts_with(parents.deep_view()[r.1 as int], from@),
        !r.0 ==> spec_first_match(parents.deep_view(), from@) == -1,
{
    let mut i: usize = 0;
    while i < parents.len()
        invariant
            i <= parents.len(),
            forall|k: int| 0 <= k < i ==> !spec_starts_with(#[trigger] parents.deep_view()[k], from@),
        decreases parents.len() - i,
    {
        if starts_with_str(&parents[i], from) {
            proof {
                lemma_first_match_at(parents.deep_view(), from@, i as int);
            }
            return (true, i);
        }
        i = i + 1;
    }
    proof {
        lemma_first_match_none(parents.deep_view(), from@);
    }
    (false, 0)
}

/// The parents list with the reparenting rewrite applied.
pub fn rewrite_parents(parents: &Vec<String>, from: &String, to: &String) -> (r: Vec<String>)
    ensures
        r.deep_view() == spec_rewrite_parents(parents.deep_view(), from@, to@),
{
    let (found, i) = find_first_match(parents, from);
    if !found {
        return clone_strings(parents);
    }
    let mut r = clone_strings(parents);
    let plen = parents[i].as_str().unicode_len();
    let flen = from.as_str().unicode_len();
    let suffix = parents[i].as_str().substring_char(flen, plen);
    let mut replaced = to.clone();
    replaced.append(suffix);
    proof {
        assert(replaced@ == to@ + parents.deep_view()[i as int].skip(from@.len() as int));
    }
    let ghost before = r.deep_view();
    r.set(i, replaced);
    proof {
        assert(r.deep_view() =~= before.update(
            i as int,
            to@ + parents.deep_view()[i as int].skip(from@.len() as int),
        ));
    }
    r
}

/// Whether a list of addresses holds the given address.
pub fn contains_hash(v: &Vec<EntryHash>, t: EntryHash) -> (r: bool)
    ensures
        r == v@.contains(t),
{
    let mut i: usize = 0;
    while i < v.len()
        invariant
            i <= v.len(),
            forall|k: int| 0 <= k < i ==> v@[k] != t,
        decreases v.len() - i,
    {
        if v[i] == t {
            return true;
        }
        i = i + 1;
    }
    false
}

/// The tag of the last root pair pointing at `t`; `t` must occur.
fn find_last_tag(rl: &Vec<(EntryHash, String)>, t: EntryHash) -> (r: String)
    requires
        exists|k: int| 0 <= k < rl.deep_view().len() && (#[trigger] rl.deep_view()[k]).0 == t,
    ensures
        r@ == spec_last_tag(rl.deep_view(), t),
{
    let ghost all = rl.deep_view();
    let mut j: usize = rl.len();
    proof {
        assert(all.take(rl.len() as int) =~= all);
    }
    while j > 0
        invariant
            j <= rl.len(),
            all == rl.deep_view(),
            exists|k: int| 0 <= k < all.len() && (#[trigger] all[k]).0 == t,
            forall|k: int| j <= k < all.len() ==> (#[trigger] all[k]).0 != t,
            spec_last_tag(all, t) == spec_last_tag(all.take(j as int), t),
        decreases j,
    {
        j = j - 1;
        proof {
            assert(all.take(j as int + 1).last() == all[j as int]);
            assert(all.take(j as int + 1).drop_last() =~= all.take(j as int));
        }
        if rl[j].0 == t {
            proof {
                assert(spec_last_tag(all.take(j as int + 1), t) == all[j as int].1);
            }
            return rl[j].1.clone();
        }
    }
    proof {
        let k = choose|k: int| 0 <= k < all.len() && (#[trigger] all[k]).0 == t;
        assert(false);
    }
    String::new()
}

impl Store {
    /// An empty ledger slice: no records, no links.
    pub fn new() -> (r: Store)
        ensures
            r.records@.len() == 0,
            r.index_links@.len() == 0,
            r.attachment_links@.len() == 0,
            store_wf(r),
    {
        Store { records: Vec::new(), index_links: Vec::new(), attachment_links: Vec::new() }
    }

    /// Creates the index links for one unit: one at the global root anchor
    /// and one per tree path, each tagged with the encoded (state, flags)
    /// pair. Path anchors need no separate "ensure" step here: a path node
    /// exists exactly when a link hangs on it.
    pub fn create_unit_links(
        &mut self,
        hash: EntryHash,
        tree_paths: &Vec<Vec<String>>,
        state: &str,
        flags: &str,
    )
        requires
            store_wf(*old(self)),
            hash.value < old(self).records.len(),
        ensures
            final(self).index_links.deep_view() == old(self).index_links.deep_view()
                + spec_new_links(hash, tree_paths.deep_view(), state@, flags@),
            final(self).records == old(self).records,
            final(self).attachment_links == old(self).attachment_links,
            store_wf(*final(self)),
    {
        let ghost orig = self.index_links.deep_view();
        let ghost added = spec_new_links(hash, tree_paths.deep_view(), state@, flags@);
        let tag = encode_state_tag(state, flags);
        proof {
            assert(tag@[state@.len() as int] == '-');
            assert(tag@.contains('-'));
            crate::tag::lemma_decode_some_when_dash(tag@);
        }
        let root_link = IndexLink { base: get_units_path(), target: hash, tag: tag.clone() };
        self.index_links.push(root_link);
        proof {
            assert(self.index_links.deep_view() =~= orig + added.take(1));
        }
        let mut i: usize = 0;
        while i < tree_paths.len()
            invariant
                i <= tree_paths.len(),
                tag@ == spec_encode_state_tag(state@, flags@),
                added == spec_new_links(hash, tree_paths.deep_view(), state@, flags@),
                self.index_links.deep_view() =~= orig + added.take(1 + i as int),
                self.records == old(self).records,
                self.attachment_links == old(self).attachment_links,
            decreases tree_paths.len() - i,
        {
            let ghost before = self.index_links.deep_view();
            let link = IndexLink {
                base: clone_strings(&tree_paths[i]),
                target: hash,
                tag: tag.clone(),
            };
            proof {
                assert(link@ == added[1 + i as int]);
            }
            self.index_links.push(link);
            proof {
                assert(self.index_links.deep_view() =~= before.push(added[1 + i as int]));
                assert(orig + added.take(1 + i as int + 1) =~= before.push(added[1 + i as int]));
            }
            i = i + 1;
        }
        proof {
            assert(added.take(1 + tree_paths.len() as int) =~= added);
            assert forall|k: int| 0 <= k < self.index_links.deep_view().len() implies (
            #[trigger] self.index_links.deep_view()[k]).target.value < self.records.len()
                && spec_decode_state_tag(self.index_links.deep_view()[k].tag) is Some by {
                if k < orig.len() {
                    assert(self.index_links.deep_view()[k] == orig[k]);
                } else {
                    assert(self.index_links.deep_view()[k] == added[k - orig.len()]);
                    assert(added[k - orig.len()].tag == tag@);
                }
            }
        }
    }

    /// Deletes every index link for `hash` that sits at the global root
    /// anchor or at one of the given tree paths: a scan over the index, not
    /// a lookup by key. Links at other nodes stay, even when they point at
    /// the same unit.
    pub fn delete_unit_links(&mut self, hash: EntryHash, tree_paths: &Vec<Vec<String>>)
        ensures
            final(self).index_links.deep_view() == old(self).index_links.deep_view().filter(
                |l: IndexLinkAbs| !spec_delete_match(l, hash, tree_paths.deep_view()),
            ),
            final(self).records == old(self).records,
            final(self).attachment_links == old(self).attachment_links,
            store_wf(*old(self)) ==> store_wf(*final(self)),
    {
        let ghost orig = self.index_links.deep_view();
        let ghost keep = |l: IndexLinkAbs| !spec_delete_match(l, hash, tree_paths.deep_view());
        let units_path = get_units_path();
        let mut i: usize = 0;
        let ghost mut j: int = 0;
        proof {
            reveal(Seq::filter);
            assert(orig.take(0) =~= Seq::<IndexLinkAbs>::empty());
            assert(self.index_links.deep_view().take(0) =~= orig.take(0).filter(keep));
            assert(self.index_links.deep_view().skip(0) =~= orig.skip(0));
        }
        while i < self.index_links.len()
            invariant
                0 <= j <= orig.len(),
                i <= self.index_links.len(),
                keep == (|l: IndexLinkAbs| !spec_delete_match(l, hash, tree_paths.deep_view())),
                units_path.deep_view() == spec_units_base(),
                self.index_links.deep_view().take(i as int) == orig.take(j).filter(keep),
                self.index_links.deep_view().skip(i as int) =~= orig.skip(j),
                self.records == old(self).records,
                self.attachment_links == old(self).attachment_links,
            decreases self.index_links.len() - i,
        {
            let ghost dv = self.index_links.deep_view();
            proof {
                assert(dv.skip(i as int).len() > 0);
                assert(dv[i as int] == dv.skip(i as int)[0]);
                assert(dv[i as int] == orig[j]);
                assert(orig.take(j + 1) =~= orig.take(j).push(orig[j]));
                reveal(Seq::filter);
                assert(orig.take(j + 1).drop_last() =~= orig.take(j));
                assert(orig.take(j + 1).filter(keep) == if keep(orig[j]) {
                    orig.take(j).filter(keep).push(orig[j])
                } else {
                    orig.take(j).filter(keep)
                });
            }
            let matches_target = self.index_links[i].target == hash;
            let at_root = path_eq(&self.index_links[i].base, &units_path);
            let at_path = paths_contain(tree_paths, &self.index_links[i].base);
            proof {
                assert(self.index_links@[i as int]@ == dv[i as int]);
            }
            if matches_target && (at_root || at_path) {
                proof {
                    assert(!keep(orig[j]));
                }
                self.index_links.remove(i);
                proof {
                    assert(self.index_links.deep_view() =~= dv.remove(i as int));
                    assert(self.index_links.deep_view().take(i as int) =~= dv.take(i as int));
                    assert(self.index_links.deep_view().skip(i as int) =~= dv.skip(i as int + 1));
                    assert(dv.skip(i as int + 1) =~= dv.skip(i as int).skip(1));
                    assert(dv.skip(i as int).skip(1) =~= orig.skip(j).skip(1));
                    assert(orig.skip(j).skip(1) =~= orig.skip(j + 1));
                }
            } else {
                proof {
                    assert(keep(orig[j]));
                    assert(dv.take(i as int + 1) =~= dv.take(i as int).push(orig[j]));
                    assert(dv.skip(i as int).skip(1) =~= dv.skip(i as int + 1));
                    assert(orig.skip(j).skip(1) =~= orig.skip(j + 1));
                    assert(dv.skip(i as int + 1) =~= orig.skip(j + 1));
                }
                i = i + 1;
            }
            proof {
                j = j + 1;
            }
        }
        proof {
            assert(j == orig.len());
            assert(orig.take(j) =~= orig);
            assert(self.index_links.deep_view().take(i as int) =~= self.index_links.deep_view());
            if store_wf(*old(self)) {
                lemma_filter_elements(orig, keep);
                assert forall|k: int| 0 <= k < self.index_links.deep_view().len() implies (
                #[trigger] self.index_links.deep_view()[k]).target.value < self.records.len()
                    && spec_decode_state_tag(self.index_links.deep_view()[k].tag) is Some by {
                    assert(orig.contains(orig.filter(keep)[k]));
                    let w = choose|w: int| 0 <= w < orig.len() && orig[w] == orig.filter(keep)[k];
                    assert(orig[w].target.value < old(self).records.len());
                }
            }
        }
    }
    /// Persists a unit record, assigns its content address, and indexes it
    /// at the global root anchor and at each of its tree paths, tagged with
    /// the given state and the unit's flags. The model ledger accepts every
    /// write, so the `StoreError` case of a rejected write does not arise.
    pub fn create_unit_inner(&mut self, unit: Unit, state: &str) -> (r: Result<
        UnitOutput,
        BranchyError,
    >)
        requires
            store_wf(*old(self)),
        ensures
            store_wf(*final(self)),
            r is Ok,
            match r {
                Ok(out) => {
                    &&& final(self).records@ == old(self).records@.push(unit)
                    &&& out.info.hash.value == old(self).records@.len()
                    &&& out.info.state@ == state@
                    &&& out.info.flags@ == spec_flags_of(unit@.meta)
                    &&& out.record.entry == out.info.hash
                    &&& out.record.action.value == out.info.hash.value
                    &&& out.record.unit@ == unit@
                    &&& final(self).index_links.deep_view() == old(self).index_links.deep_view()
                        + spec_new_links(
                        out.info.hash,
                        spec_tree_paths(unit@),
                        state@,
                        spec_flags_of(unit@.meta),
                    )
                    &&& final(self).attachment_links == old(self).attachment_links
                },
                Err(_) => false,
            },
            !state@.contains('-') ==> spec_get_units(*final(self)) == spec_get_units(
                *old(self),
            ).push(
                (
                    (EntryHash { value: old(self).records@.len() as usize }),
                    state@,
                    spec_flags_of(unit@.meta),
                    unit,
                ),
            ),
    {
        let hash = EntryHash { value: self.records.len() };
        let tree_paths = unit.tree_paths();
        let flags = unit.flags_str();
        let record_unit = unit.duplicate();
        self.records.push(unit);
        self.create_unit_links(hash, &tree_paths, state, flags.as_str());
        proof {
            if !state@.contains('-') {
                let fl = spec_flags_of(unit@.meta);
                let tagseq = spec_encode_state_tag(state@, fl);
                let x = (hash, tagseq);
                let links_old = old(self).index_links.deep_view();
                let paths = spec_tree_paths(unit@);
                let added = spec_new_links(hash, paths, state@, fl);
                let is_root = |l: IndexLinkAbs| spec_is_root_link(l);
                let pairfn = |l: IndexLinkAbs| (l.target, l.tag);
                let all = spec_root_pairs(*old(self));
                let all2 = spec_root_pairs(*self);
                reveal_strlit("T");
                reveal_strlit("units");
                assert(crate::path::spec_root_segment().len() == 1);
                assert("units"@.len() == 5);
                assert forall|k: int| 1 <= k < added.len() implies !is_root(added[k]) by {
                    assert(added[k].base == paths[k - 1]);
                    assert(paths[k - 1][0] == crate::path::spec_root_segment());
                    assert(spec_units_base()[0] == "units"@);
                    assert(paths[k - 1][0] != spec_units_base()[0]);
                }
                assert(added.skip(1).len() == added.len() - 1);
                assert(forall|k: int|
                    0 <= k < added.skip(1).len() ==> !is_root(#[trigger] added.skip(1)[k]));
                lemma_filter_none(added.skip(1), is_root);
                Seq::filter_distributes_over_add(seq![added[0]], added.skip(1), is_root);
                assert(seq![added[0]] + added.skip(1) =~= added);
                reveal(Seq::filter);
                assert(seq![added[0]].drop_last() =~= Seq::<IndexLinkAbs>::empty());
                assert(seq![added[0]].filter(is_root) =~= seq![added[0]]);
                assert(added.filter(is_root) =~= seq![added[0]]);
                Seq::filter_distributes_over_add(links_old, added, is_root);
                assert(self.index_links.deep_view() == links_old + added);
                assert(self.index_links.deep_view().filter(is_root) == links_old.filter(is_root)
                    + seq![added[0]]);
                assert(all2 =~= all.push(x));
                lemma_root_pairs_wf(*old(self));
                assert forall|k: int| 0 <= k < all.len() implies (#[trigger] all[k]).0 != hash by {
                    assert(all[k].0.value < old(self).records@.len());
                }
                assert forall|k: int|
                    0 <= k < all.len() implies spec_last_tag(all2, (#[trigger] all[k]).0)
                    == spec_last_tag(all, all[k].0) by {
                    lemma_last_tag_push_other(all, x, all[k].0);
                }
                lemma_gu_push(*self, all, all2, x, Set::empty());
                lemma_gu_stable(*old(self), *self, all, all, all2, Set::empty(), unit);
                assert(spec_last_tag(all2, hash) == tagseq) by {
                    assert(all2.last() == x);
                }
                crate::tag::lemma_state_tag_round_trip(state@, fl);
                assert(spec_gu_entry(*self, all2, hash) == (hash, state@, fl, unit));
                assert(spec_get_units(*self) == spec_get_units(*old(self)).push(
                    (hash, state@, fl, unit),
                ));
            }
        }
        let out = UnitOutput {
            info: UnitInfo { hash, state: String::from_str(state), flags },
            record: Record { action: ActionHash { value: hash.value }, entry: hash, unit: record_unit },
        };
        Ok(out)
    }

    /// Creates a unit in the given lifecycle state.
    pub fn create_unit(&mut self, input: UnitInput) -> (r: Result<UnitOutput, BranchyError>)
        requires
            store_wf(*old(self)),
        ensures
            store_wf(*final(self)),
            r is Ok,
            match r {
                Ok(out) => {
                    &&& final(self).records@ == old(self).records@.push(input.unit)
                    &&& out.info.hash.value == old(self).records@.len()
                    &&& out.info.state@ == input.state@
                    &&& out.info.flags@ == spec_flags_of(input.unit@.meta)
                    &&& out.record.entry == out.info.hash
                    &&& out.record.action.value == out.info.hash.value
                    &&& out.record.unit@ == input.unit@
                    &&& final(self).index_links.deep_view() == old(self).index_links.deep_view()
                        + spec_new_links(
                        out.info.hash,
                        spec_tree_paths(input.unit@),
                        input.state@,
                        spec_flags_of(input.unit@.meta),
                    )
                    &&& final(self).attachment_links == old(self).attachment_links
                },
                Err(_) => false,
            },
            !input.state@.contains('-') ==> spec_get_units(*final(self)) == spec_get_units(
                *old(self),
            ).push(
                (
                    (EntryHash { value: old(self).records@.len() as usize }),
                    input.state@,
                    spec_flags_of(input.unit@.meta),
                    input.unit,
                ),
            ),
    {
        self.create_unit_inner(input.unit, input.state.as_str())
    }

    /// Lists every unit indexed at the global root anchor: per unit one
    /// entry, carrying the state and flags decoded from its most recently
    /// written root tag and the stored record. Links at the root whose
    /// target no longer resolves would be dropped rather than fail the
    /// listing; in a well-formed store every link resolves and every tag
    /// decodes, so the listing always succeeds.
    pub fn get_units(&self) -> (r: Result<Vec<UnitOutput>, BranchyError>)
        requires
            store_wf(*self),
        ensures
            match r {
                Ok(outs) => outputs_match(outs@, spec_get_units(*self)),
                Err(_) => false,
            },
    {
        let units_path = get_units_path();
        let ghost orig = self.index_links.deep_view();
        let ghost is_root = |l: IndexLinkAbs| spec_is_root_link(l);
        let ghost pairfn = |l: IndexLinkAbs| (l.target, l.tag);
        let mut rl: Vec<(EntryHash, String)> = Vec::new();
        let mut i: usize = 0;
        proof {
            reveal(Seq::filter);
            assert(orig.take(0) =~= Seq::<IndexLinkAbs>::empty());
            assert(rl.deep_view() =~= orig.take(0).filter(is_root).map_values(pairfn));
        }
        while i < self.index_links.len()
            invariant
                i <= self.index_links.len(),
                orig == self.index_links.deep_view(),
                units_path.deep_view() == spec_units_base(),
                is_root == (|l: IndexLinkAbs| spec_is_root_link(l)),
                pairfn == (|l: IndexLinkAbs| (l.target, l.tag)),
                rl.deep_view() == orig.take(i as int).filter(is_root).map_values(pairfn),
            decreases self.index_links.len() - i,
        {
            let ghost before = rl.deep_view();
            proof {
                reveal(Seq::filter);
                assert(orig.take(i as int + 1) =~= orig.take(i as int).push(orig[i as int]));
                assert(orig.take(i as int + 1).drop_last() =~= orig.take(i as int));
                assert(self.index_links@[i as int]@ == orig[i as int]);
            }
            if path_eq(&self.index_links[i].base, &units_path) {
                let pair = (self.index_links[i].target, self.index_links[i].tag.clone());
                rl.push(pair);
                proof {
                    assert(is_root(orig[i as int]));
                    assert(rl.deep_view() =~= before.push(pairfn(orig[i as int])));
                    assert(orig.take(i as int + 1).filter(is_root).map_values(pairfn)
                        =~= before.push(pairfn(orig[i as int])));
                }
            } else {
                proof {
                    assert(!is_root(orig[i as int]));
                    assert(orig.take(i as int + 1).filter(is_root).map_values(pairfn) == before);
                }
            }
            i = i + 1;
        }
        proof {
            assert(orig.take(self.index_links.len() as int) =~= orig);
            assert(rl.deep_view() == spec_root_pairs(*self));
            lemma_root_pairs_wf(*self);
        }
        let ghost all = rl.deep_view();
        let mut outs: Vec<UnitOutput> = Vec::new();
        let mut seen: Vec<EntryHash> = Vec::new();
        let ghost mut seenset = Set::<EntryHash>::empty();
        let ghost mut emitted = Seq::<(EntryHash, Seq<char>, Seq<char>, Unit)>::empty();
        let mut i: usize = 0;
        proof {
            assert(all.skip(0) =~= all);
            assert(emitted + spec_gu_rec(*self, all, all, seenset) =~= spec_get_units(*self));
        }
        while i < rl.len()
            invariant
                i <= rl.len(),
                store_wf(*self),
                all == rl.deep_view(),
                all == spec_root_pairs(*self),
                spec_get_units(*self) == emitted + spec_gu_rec(
                    *self,
                    all.skip(i as int),
                    all,
                    seenset,
                ),
                outputs_match(outs@, emitted),
                forall|t: EntryHash| seen@.contains(t) == seenset.contains(t),
            decreases rl.len() - i,
        {
            let ghost rest = all.skip(i as int);
            let t = rl[i].0;
            proof {
                assert(rest[0] == all[i as int]);
                assert(rest.skip(1) =~= all.skip(i as int + 1));
                lemma_root_pairs_wf(*self);
                assert(all[i as int].0.value < self.records@.len());
            }
            if !contains_hash(&seen, t) {
                let tag = find_last_tag(&rl, t);
                proof {
                    lemma_last_tag_occurs(all, t);
                    let w = choose|w: int|
                        0 <= w < all.len() && (#[trigger] all[w]).0 == t && spec_last_tag(all, t)
                            == all[w].1;
                    assert(spec_decode_state_tag(all[w].1) is Some);
                }
                match convert_tag(tag.as_str()) {
                    Ok((state, flags)) => {
                        let ghost entry = spec_gu_entry(*self, all, t);
                        proof {
                            assert(entry.1 == state@ && entry.2 == flags@);
                        }
                        let record_unit = self.records[t.value].duplicate();
                        let out = UnitOutput {
                            info: UnitInfo { hash: t, state, flags },
                            record: Record {
                                action: ActionHash { value: t.value },
                                entry: t,
                                unit: record_unit,
                            },
                        };
                        let ghost outs_old = outs@;
                        let ghost seen_old = seen@;
                        outs.push(out);
                        seen.push(t);
                        proof {
                            assert(seen@ =~= seen_old.push(t));
                            assert forall|x: EntryHash| seen@.contains(x) == seenset.insert(
                                t,
                            ).contains(x) by {
                                if x == t {
                                    assert(seen@[seen@.len() - 1] == t);
                                    assert(seen@.contains(x));
                                } else {
                                    if seen@.contains(x) {
                                        let k = choose|k: int|
                                            0 <= k < seen@.len() && seen@[k] == x;
                                        assert(seen_old[k] == x);
                                        assert(seen_old.contains(x));
                                    }
                                    if seenset.insert(t).contains(x) {
                                        assert(seenset.contains(x));
                                        let k = choose|k: int|
                                            0 <= k < seen_old.len() && seen_old[k] == x;
                                        assert(seen@[k] == x);
                                    }
                                }
                            }
                            assert(spec_gu_rec(*self, rest, all, seenset) == seq![entry]
                                + spec_gu_rec(*self, rest.skip(1), all, seenset.insert(t)));
                            assert(emitted + spec_gu_rec(*self, rest, all, seenset) =~= (
                            emitted.push(entry)) + spec_gu_rec(
                                *self,
                                all.skip(i as int + 1),
                                all,
                                seenset.insert(t),
                            ));
                            emitted = emitted.push(entry);
                            seenset = seenset.insert(t);
                            assert(outs@ =~= outs_old.push(out));
                            assert(outputs_match(outs@, emitted));
                        }
                    },
                    Err(e) => {
                        // unreachable: a well-formed store has only decodable index tags
                        proof {
                            assert(false);
                        }
                        return Err(e);
                    },
                }
            } else {
                proof {
                    assert(seenset.contains(t));
                    assert(spec_gu_rec(*self, rest, all, seenset) == spec_gu_rec(
                        *self,
                        all.skip(i as int + 1),
                        all,
                        seenset,
                    ));
                }
            }
            i = i + 1;
        }
        proof {
            assert(all.skip(rl.len() as int) =~= Seq::<(EntryHash, Seq<char>)>::empty());
            assert(spec_get_units(*self) =~= emitted);
        }
        Ok(outs)
    }

    /// Re-tags a unit's index links with a new lifecycle state: deletes the
    /// links at its current tree paths and recreates them tagged with the
    /// new state and the unit's unchanged flags. The unit's record — its
    /// content address and its flags — is untouched.
    pub fn advance_state(&mut self, input: &AdvanceStateInput) -> (r: Result<(), BranchyError>)
        requires
            store_wf(*old(self)),
        ensures
            store_wf(*final(self)),
            r is Ok <==> input.unit_hash.value < old(self).records@.len(),
            r is Err ==> r == Err::<(), BranchyError>(BranchyError::NotFound) && *final(self)
                == *old(self),
            r is Ok ==> {
                &&& final(self).records == old(self).records
                &&& final(self).attachment_links == old(self).attachment_links
                &&& final(self).index_links.deep_view() == old(self).index_links.deep_view().filter(
                    |l: IndexLinkAbs|
                        !spec_delete_match(
                            l,
                            input.unit_hash,
                            spec_tree_paths(old(self).records@[input.unit_hash.value as int]@),
                        ),
                ) + spec_new_links(
                    input.unit_hash,
                    spec_tree_paths(old(self).records@[input.unit_hash.value as int]@),
                    input.new_state@,
                    spec_flags_of(old(self).records@[input.unit_hash.value as int]@.meta),
                )
            },
    {
        if input.unit_hash.value >= self.records.len() {
            return Err(BranchyError::NotFound);
        }
        let unit = self.records[input.unit_hash.value].duplicate();
        let paths = unit.tree_paths();
        let flags = unit.flags_str();
        self.delete_unit_links(input.unit_hash, &paths);
        self.create_unit_links(input.unit_hash, &paths, input.new_state.as_str(), flags.as_str());
        Ok(())
    }

    /// Reindexes a unit under new content: deletes its index links at the
    /// given (old) tree paths, stores the new content under a fresh address,
    /// and creates fresh links at the new content's tree paths, tagged with
    /// the given state and the new content's flags. The two steps are
    /// separately failable in the real ledger; a failure between them leaves
    /// the unit unindexed until a corrective update.
    pub fn _update_unit(
        &mut self,
        hash: EntryHash,
        paths: &Vec<Vec<String>>,
        new_unit: &Unit,
        state: &str,
    ) -> (r: UnitOutput)
        requires
            store_wf(*old(self)),
        ensures
            store_wf(*final(self)),
            final(self).records@.len() == old(self).records@.len() + 1,
            final(self).records@.take(old(self).records@.len() as int) == old(self).records@,
            final(self).records@.last()@ == new_unit@,
            r.info.hash.value == old(self).records@.len(),
            r.info.state@ == state@,
            r.info.flags@ == spec_flags_of(new_unit@.meta),
            r.record.entry == r.info.hash,
            r.record.action.value == r.info.hash.value,
            r.record.unit@ == new_unit@,
            final(self).index_links.deep_view() == old(self).index_links.deep_view().filter(
                |l: IndexLinkAbs| !spec_delete_match(l, hash, paths.deep_view()),
            ) + spec_new_links(
                (EntryHash { value: old(self).records@.len() as usize }),
                spec_tree_paths(new_unit@),
                state@,
                spec_flags_of(new_unit@.meta),
            ),
            final(self).attachment_links == old(self).attachment_links,
    {
        self.delete_unit_links(hash, paths);
        let new_hash = EntryHash { value: self.records.len() };
        self.records.push(new_unit.duplicate());
        proof {
            assert(self.records@.take(old(self).records@.len() as int) =~= old(self).records@);
            assert forall|k: int| 0 <= k < self.index_links.deep_view().len() implies (
            #[trigger] self.index_links.deep_view()[k]).target.value < self.records.len() by {}
        }
        let new_paths = new_unit.tree_paths();
        let flags = new_unit.flags_str();
        self.create_unit_links(new_hash, &new_paths, state, flags.as_str());
        UnitOutput {
            info: UnitInfo { hash: new_hash, state: String::from_str(state), flags },
            record: Record {
                action: ActionHash { value: new_hash.value },
                entry: new_hash,
                unit: new_unit.duplicate(),
            },
        }
    }

    /// Rewrites one descendant during a move: replaces the `from` prefix of
    /// its first `from`-prefixed parent entry by `to`, stores the rewritten
    /// unit under a fresh address, and moves its index links from its old
    /// tree paths to the rewritten ones, preserving its own state tag.
    pub fn reparent_unit(&mut self, unit_info: &UnitInfo, from: &String, to: &String) -> (r:
        Result<(UnitOutput, Unit), BranchyError>)
        requires
            store_wf(*old(self)),
        ensures
            store_wf(*final(self)),
            r is Ok <==> unit_info.hash.value < old(self).records@.len(),
            r is Err ==> *final(self) == *old(self) && r == Err::<
                (UnitOutput, Unit),
                BranchyError,
            >(BranchyError::NotFound),
            match r {
                Ok(p) => {
                    &&& p.1@ == spec_reparented(
                        spec_old_unit(*old(self), unit_info.hash),
                        from@,
                        to@,
                    )
                    &&& p.0.record.unit@ == p.1@
                    &&& p.0.info.hash.value == old(self).records@.len()
                    &&& p.0.info.state@ == unit_info.state@
                    &&& final(self).records@.len() == old(self).records@.len() + 1
                    &&& final(self).records@.take(old(self).records@.len() as int) == old(
                        self,
                    ).records@
                    &&& final(self).records@.last()@ == p.1@
                    &&& final(self).index_links.deep_view() == old(
                        self,
                    ).index_links.deep_view().filter(
                        |l: IndexLinkAbs|
                            !spec_delete_match(
                                l,
                                unit_info.hash,
                                spec_tree_paths(spec_old_unit(*old(self), unit_info.hash)),
                            ),
                    ) + spec_new_links(
                        (EntryHash { value: old(self).records@.len() as usize }),
                        spec_tree_paths(p.1@),
                        unit_info.state@,
                        spec_flags_of(spec_old_unit(*old(self), unit_info.hash).meta),
                    )
                    &&& final(self).attachment_links == old(self).attachment_links
                },
                Err(_) => true,
            },
    {
        if unit_info.hash.value >= self.records.len() {
            return Err(BranchyError::NotFound);
        }
        let old_unit = self.records[unit_info.hash.value].duplicate();
        let old_paths = old_unit.tree_paths();
        let new_parents = rewrite_parents(&old_unit.parents, from, to);
        let new_unit = Unit {
            parents: new_parents,
            description: old_unit.description,
            name: old_unit.name,
            stewards: old_unit.stewards,
            meta: old_unit.meta,
        };
        proof {
            assert(new_unit@ == spec_reparented(
                spec_old_unit(*old(self), unit_info.hash),
                from@,
                to@,
            ));
        }
        let out = self._update_unit(unit_info.hash, &old_paths, &new_unit, unit_info.state.as_str());
        Ok((out, new_unit))
    }

    /// Rewrites every unit found at one descendant index node during a move.
    pub fn reparent_node(&mut self, units: &Vec<UnitInfo>, from: &String, to: &String) -> (r:
        Result<(), BranchyError>)
        requires
            store_wf(*old(self)),
            forall|k: int|
                0 <= k < units@.len() ==> (#[trigger] units@[k]).hash.value < old(
                    self,
                ).records@.len(),
        ensures
            store_wf(*final(self)),
            r is Ok,
            final(self).records@.len() >= old(self).records@.len(),
            final(self).records@.take(old(self).records@.len() as int) == old(self).records@,
            final(self).attachment_links == old(self).attachment_links,
            spec_cascade(
                *old(self),
                Seq::new(units@.len() as nat, |j: int| (units@[j].hash, units@[j].state@)),
                from@,
                to@,
                *final(self),
            ),
    {
        let ghost dpairs = Seq::new(
            units@.len() as nat,
            |j: int| (units@[j].hash, units@[j].state@),
        );
        let mut k: usize = 0;
        proof {
            assert(dpairs.take(0) =~= Seq::<(EntryHash, Seq<char>)>::empty());
        }
        while k < units.len()
            invariant
                k <= units.len(),
                store_wf(*self),
                dpairs == Seq::new(units@.len() as nat, |j: int| (units@[j].hash, units@[j].state@)),
                forall|j: int|
                    0 <= j < units@.len() ==> (#[trigger] units@[j]).hash.value < old(
                        self,
                    ).records@.len(),
                self.records@.len() >= old(self).records@.len(),
                self.records@.take(old(self).records@.len() as int) == old(self).records@,
                self.attachment_links == old(self).attachment_links,
                spec_cascade(*old(self), dpairs.take(k as int), from@, to@, *self),
            decreases units.len() - k,
        {
            let ghost prev = *self;
            match self.reparent_unit(&units[k], from, to) {
                Ok(_) => {
                    proof {
                        assert(self.records@.take(old(self).records@.len() as int)
                            =~= prev.records@.take(prev.records@.len() as int).take(
                            old(self).records@.len() as int,
                        ));
                        assert(prev.records@.take(prev.records@.len() as int) =~= prev.records@);
                        assert(spec_reparent_step(prev, dpairs[k as int], from@, to@, *self));
                        lemma_cascade_snoc(
                            *old(self),
                            dpairs.take(k as int),
                            dpairs[k as int],
                            from@,
                            to@,
                            prev,
                            *self,
                        );
                        assert(dpairs.take(k as int).push(dpairs[k as int]) =~= dpairs.take(
                            k as int + 1,
                        ));
                    }
                },
                Err(e) => {
                    // unreachable: every listed address points at a stored record
                    proof {
                        assert(false);
                    }
                    return Err(e);
                },
            }
            k = k + 1;
        }
        proof {
            assert(dpairs.take(units.len() as int) =~= dpairs);
        }
        Ok(())
    }

    /// Replaces a unit's content in place: deletes its old index links,
    /// stores the new content under a fresh address, recreates index links
    /// from the new content, and — when the unit's display path or name
    /// changed — walks every unit indexed strictly below the old primary
    /// tree path and rewrites its `from`-prefixed parent reference,
    /// reindexing each descendant while preserving its own state.
    pub fn update_unit(&mut self, input: &UpdateUnitInput) -> (r: Result<UnitOutput, BranchyError>)
        requires
            store_wf(*old(self)),
        ensures
            store_wf(*final(self)),
            r is Ok <==> input.hash.value < old(self).records@.len(),
            r is Err ==> *final(self) == *old(self) && r == Err::<UnitOutput, BranchyError>(
                BranchyError::NotFound,
            ),
            match r {
                Ok(out) => {
                    &&& out.record.unit@ == input.unit@
                    &&& out.info.hash.value == old(self).records@.len()
                    &&& out.info.state@ == input.state@
                    &&& out.info.flags@ == spec_flags_of(input.unit@.meta)
                    &&& final(self).records@.len() >= old(self).records@.len() + 1
                    &&& final(self).records@.take(old(self).records@.len() as int) == old(
                        self,
                    ).records@
                    &&& final(self).records@[old(self).records@.len() as int]@ == input.unit@
                    &&& final(self).attachment_links == old(self).attachment_links
                    &&& !spec_reparenting(spec_old_unit(*old(self), input.hash), input.unit@)
                        ==> final(self).records@.len() == old(self).records@.len() + 1
                        && spec_update_step(
                        *old(self),
                        input.hash,
                        input.unit,
                        input.state@,
                        *final(self),
                    )
                    &&& spec_reparenting(spec_old_unit(*old(self), input.hash), input.unit@)
                        ==> exists|m: Store|
                        #[trigger] spec_update_step(*old(self), input.hash, input.unit, input.state@, m)
                            && spec_cascade(
                            m,
                            spec_descendants(
                                m.index_links.deep_view(),
                                spec_tree_paths(spec_old_unit(*old(self), input.hash))[0],
                            ),
                            spec_path_str(spec_old_unit(*old(self), input.hash)),
                            spec_path_str(input.unit@),
                            *final(self),
                        )
                },
                Err(_) => true,
            },
    {
        if input.hash.value >= self.records.len() {
            return Err(BranchyError::NotFound);
        }
        let old_unit = self.records[input.hash.value].duplicate();
        let old_paths = old_unit.tree_paths();
        let out = self._update_unit(input.hash, &old_paths, &input.unit, input.state.as_str());
        let ghost mid_store = *self;
        let ghost mid = self.records@;
        proof {
            assert(spec_update_step(*old(self), input.hash, input.unit, input.state@, mid_store));
        }
        let old_path = old_unit.path_str();
        let new_path = input.unit.path_str();
        let reparenting = !(new_path == old_path) || !(old_unit.name == input.unit.name);
        proof {
            assert(reparenting == spec_reparenting(
                spec_old_unit(*old(self), input.hash),
                input.unit@,
            ));
        }
        if reparenting {
            let primary = &old_paths[0];
            let ghost primaryv = spec_tree_paths(spec_old_unit(*old(self), input.hash))[0];
            let ghost linksdv = self.index_links.deep_view();
            let ghost under = |l: IndexLinkAbs| spec_strictly_under(l.base, primaryv);
            let mut infos: Vec<UnitInfo> = Vec::new();
            let mut k: usize = 0;
            proof {
                assert(primary.deep_view() == primaryv);
                assert(linksdv.take(0) =~= Seq::<IndexLinkAbs>::empty());
                reveal(Seq::filter);
            }
            while k < self.index_links.len()
                invariant
                    k <= self.index_links.len(),
                    store_wf(*self),
                    *self == mid_store,
                    primary.deep_view() == primaryv,
                    linksdv == self.index_links.deep_view(),
                    under == (|l: IndexLinkAbs| spec_strictly_under(l.base, primaryv)),
                    infos@.len() == spec_descendants(linksdv.take(k as int), primaryv).len(),
                    forall|j: int|
                        0 <= j < infos@.len() ==> (#[trigger] infos@[j]).hash
                            == spec_descendants(linksdv.take(k as int), primaryv)[j].0
                            && infos@[j].state@ == spec_descendants(
                            linksdv.take(k as int),
                            primaryv,
                        )[j].1,
                    forall|j: int|
                        0 <= j < infos@.len() ==> (#[trigger] infos@[j]).hash.value
                            < self.records@.len(),
                decreases self.index_links.len() - k,
            {
                let ghost before = linksdv.take(k as int).filter(under);
                proof {
                    reveal(Seq::filter);
                    assert(linksdv.take(k as int + 1) =~= linksdv.take(k as int).push(
                        linksdv[k as int],
                    ));
                    assert(linksdv.take(k as int + 1).drop_last() =~= linksdv.take(k as int));
                    assert(self.index_links@[k as int]@ == linksdv[k as int]);
                }
                if path_strictly_under(&self.index_links[k].base, primary) {
                    proof {
                        assert(spec_decode_state_tag(
                            (#[trigger] self.index_links.deep_view()[k as int]).tag,
                        ) is Some);
                    }
                    match convert_tag(self.index_links[k].tag.as_str()) {
                        Ok((state, flags)) => {
                            let info = UnitInfo {
                                hash: self.index_links[k].target,
                                state,
                                flags,
                            };
                            let ghost infos_old = infos@;
                            infos.push(info);
                            proof {
                                assert(under(linksdv[k as int]));
                                assert(linksdv.take(k as int + 1).filter(under) =~= before.push(
                                    linksdv[k as int],
                                ));
                                assert(infos@ =~= infos_old.push(info));
                                assert(spec_descendants(linksdv.take(k as int + 1), primaryv)
                                    =~= spec_descendants(linksdv.take(k as int), primaryv).push(
                                    (
                                        linksdv[k as int].target,
                                        (spec_decode_state_tag(linksdv[k as int].tag)->Some_0).0,
                                    ),
                                ));
                            }
                        },
                        Err(e) => {
                            // unreachable: a well-formed store has only decodable index tags
                            proof {
                                assert(false);
                            }
                            return Err(e);
                        },
                    }
                } else {
                    proof {
                        assert(!under(linksdv[k as int]));
                        assert(linksdv.take(k as int + 1).filter(under) == before);
                        assert(spec_descendants(linksdv.take(k as int + 1), primaryv)
                            =~= spec_descendants(linksdv.take(k as int), primaryv));
                    }
                }
                k = k + 1;
            }
            let ghost dpairs = spec_descendants(mid_store.index_links.deep_view(), primaryv);
            proof {
                assert(linksdv.take(self.index_links.len() as int) =~= linksdv);
                assert(dpairs.take(0) =~= Seq::<(EntryHash, Seq<char>)>::empty());
            }
            let ghost base_len = self.records@.len();
            let ghost fromv = old_path@;
            let ghost tov = new_path@;
            let mut k: usize = 0;
            while k < infos.len()
                invariant
                    k <= infos.len(),
                    store_wf(*self),
                    base_len <= self.records@.len(),
                    mid.len() <= self.records@.len(),
                    self.records@.take(mid.len() as int) == mid,
                    infos@.len() == dpairs.len(),
                    forall|j: int|
                        0 <= j < infos@.len() ==> (#[trigger] infos@[j]).hash == dpairs[j].0
                            && infos@[j].state@ == dpairs[j].1,
                    forall|j: int|
                        0 <= j < infos@.len() ==> (#[trigger] infos@[j]).hash.value < base_len,
                    old_path@ == fromv,
                    new_path@ == tov,
                    spec_cascade(mid_store, dpairs.take(k as int), fromv, tov, *self),
                    self.attachment_links == old(self).attachment_links,
                decreases infos.len() - k,
            {
                let ghost prev = *self;
                match self.reparent_unit(&infos[k], &old_path, &new_path) {
                    Ok(_) => {
                        proof {
                            assert(self.records@.take(mid.len() as int) =~= prev.records@.take(
                                prev.records@.len() as int,
                            ).take(mid.len() as int));
                            assert(prev.records@.take(prev.records@.len() as int)
                                =~= prev.records@);
                            assert(spec_reparent_step(prev, dpairs[k as int], fromv, tov, *self));
                            lemma_cascade_snoc(
                                mid_store,
                                dpairs.take(k as int),
                                dpairs[k as int],
                                fromv,
                                tov,
                                prev,
                                *self,
                            );
                            assert(dpairs.take(k as int).push(dpairs[k as int]) =~= dpairs.take(
                                k as int + 1,
                            ));
                        }
                    },
                    Err(e) => {
                        // unreachable: every collected descendant address points at a stored record
                        proof {
                            assert(false);
                        }
                        return Err(e);
                    },
                }
                k = k + 1;
            }
            proof {
                assert(dpairs.take(infos.len() as int) =~= dpairs);
                assert(spec_cascade(mid_store, dpairs, fromv, tov, *self));
            }
        }
        proof {
            assert(mid.take(old(self).records@.len() as int) == old(self).records@);
            assert(self.records@.take(old(self).records@.len() as int) =~= self.records@.take(
                mid.len() as int,
            ).take(old(self).records@.len() as int));
        }
        Ok(out)
    }

    /// Loads an initial set of units, each created in its given state. No
    /// conflict checking is done against pre-existing units with the same
    /// path.
    pub fn initialize(&mut self, input: &Initialization) -> (r: Result<(), BranchyError>)
        requires
            store_wf(*old(self)),
        ensures
            store_wf(*final(self)),
            r is Ok,
            final(self).records@.len() == old(self).records@.len() + input.units@.len(),
            final(self).records@.take(old(self).records@.len() as int) == old(self).records@,
            forall|j: int|
                0 <= j < input.units@.len() ==> final(self).records@[old(self).records@.len() + j]@
                    == (#[trigger] input.units@[j]).1@,
            final(self).index_links.deep_view() == old(self).index_links.deep_view()
                + spec_bulk_links(input.units@, old(self).records@.len() as nat),
            final(self).attachment_links == old(self).attachment_links,
    {
        let ghost base = old(self).records@.len() as nat;
        let mut k: usize = 0;
        proof {
            assert(input.units@.take(0) =~= Seq::<(String, Unit)>::empty());
            assert(old(self).index_links.deep_view() + spec_bulk_links(input.units@.take(0), base)
                =~= old(self).index_links.deep_view());
        }
        while k < input.units.len()
            invariant
                k <= input.units.len(),
                store_wf(*self),
                base == old(self).records@.len() as nat,
                self.records@.len() == old(self).records@.len() + k,
                self.records@.take(old(self).records@.len() as int) == old(self).records@,
                forall|j: int|
                    0 <= j < k ==> self.records@[old(self).records@.len() + j]@ == (
                    #[trigger] input.units@[j]).1@,
                self.index_links.deep_view() == old(self).index_links.deep_view()
                    + spec_bulk_links(input.units@.take(k as int), base),
                self.attachment_links == old(self).attachment_links,
            decreases input.units.len() - k,
        {
            let ghost prev = self.records@;
            let ghost links_prev = self.index_links.deep_view();
            let unit = input.units[k].1.duplicate();
            let state = input.units[k].0.clone();
            proof {
                assert(unit@ == input.units@[k as int].1@);
                assert(state@ == input.units@[k as int].0@);
            }
            match self.create_unit_inner(unit, state.as_str()) {
                Ok(_) => {
                    proof {
                        assert(self.records@.take(old(self).records@.len() as int) =~= prev.take(
                            old(self).records@.len() as int,
                        ));
                        lemma_bulk_links_snoc(
                            input.units@.take(k as int),
                            input.units@[k as int],
                            base,
                        );
                        assert(input.units@.take(k as int).push(input.units@[k as int])
                            =~= input.units@.take(k as int + 1));
                        assert(self.index_links.deep_view() == links_prev + spec_new_links(
                            (EntryHash { value: prev.len() as usize }),
                            spec_tree_paths(input.units@[k as int].1@),
                            input.units@[k as int].0@,
                            spec_flags_of(input.units@[k as int].1@.meta),
                        ));
                        assert(prev.len() == base + k);
                        assert(self.index_links.deep_view() =~= old(self).index_links.deep_view()
                            + spec_bulk_links(input.units@.take(k as int + 1), base));
                    }
                },
                Err(e) => {
                    // unreachable: the model ledger accepts every write
                    proof {
                        assert(false);
                    }
                    return Err(e);
                },
            }
            k = k + 1;
        }
        proof {
            assert(input.units@.take(input.units.len() as int) =~= input.units@);
        }
        Ok(())
    }

    /// Attaches an external reference to a unit: creates an attachment link
    /// tagged with the encoded reference, unless a link with the identical
    /// tag already exists. Fails with `Malformed` exactly when the
    /// reference does not fit the tag's length fields.
    pub fn add_attachment(&mut self, input: &AddAttachmentInput) -> (r: Result<(), BranchyError>)
        ensures
            final(self).records == old(self).records,
            final(self).index_links == old(self).index_links,
            store_wf(*old(self)) ==> store_wf(*final(self)),
            r is Ok <==> spec_attachment_fits(input.attachment),
            match r {
                Ok(_) => final(self).attachment_links.deep_view() == spec_add_attachment(
                    old(self).attachment_links.deep_view(),
                    input.unit_hash,
                    spec_attachment_tag(input.attachment),
                ),
                Err(e) => e == BranchyError::Malformed && *final(self) == *old(self),
            },
    {
        let tag = match encode_attachment_tag(&input.attachment) {
            Ok(t) => t,
            Err(e) => {
                return Err(e);
            },
        };
        let ghost av = self.attachment_links.deep_view();
        let ghost tagv = tag@;
        let mut k: usize = 0;
        while k < self.attachment_links.len()
            invariant
                k <= self.attachment_links.len(),
                av == self.attachment_links.deep_view(),
                tag@ == tagv,
                tagv == spec_attachment_tag(input.attachment),
                spec_attachment_fits(input.attachment),
                *self == *old(self),
                forall|j: int|
                    0 <= j < k ==> !((#[trigger] av[j]).base == input.unit_hash && av[j].tag
                        == tagv),
            decreases self.attachment_links.len() - k,
        {
            proof {
                assert(self.attachment_links@[k as int]@ == av[k as int]);
            }
            if self.attachment_links[k].base == input.unit_hash && self.attachment_links[k].tag
                == tag {
                proof {
                    assert(av[k as int].base == input.unit_hash && av[k as int].tag == tagv);
                    assert(spec_has_attachment(av, input.unit_hash, tagv));
                }
                return Ok(());
            }
            k = k + 1;
        }
        proof {
            assert(!spec_has_attachment(av, input.unit_hash, tagv));
        }
        let link = AttachmentLink { base: input.unit_hash, tag };
        self.attachment_links.push(link);
        proof {
            assert(self.attachment_links.deep_view() =~= av.push(
                AttachmentLinkAbs { base: input.unit_hash, tag: tagv },
            ));
        }
        Ok(())
    }

    /// Detaches an external reference: deletes every attachment link on the
    /// unit whose tag equals the encoded reference exactly, clearing
    /// duplicates that an inconsistent index may hold. Fails with
    /// `Malformed` exactly when the reference does not fit the tag's
    /// length fields.
    pub fn remove_attachment(&mut self, input: &AddAttachmentInput) -> (r: Result<
        (),
        BranchyError,
    >)
        ensures
            final(self).records == old(self).records,
            final(self).index_links == old(self).index_links,
            store_wf(*old(self)) ==> store_wf(*final(self)),
            r is Ok <==> spec_attachment_fits(input.attachment),
            match r {
                Ok(_) => final(self).attachment_links.deep_view() == old(
                    self,
                ).attachment_links.deep_view().filter(
                    |l: AttachmentLinkAbs|
                        !(l.base == input.unit_hash && l.tag == spec_attachment_tag(
                            input.attachment,
                        )),
                ),
                Err(e) => e == BranchyError::Malformed && *final(self) == *old(self),
            },
    {
        let tag = match encode_attachment_tag(&input.attachment) {
            Ok(t) => t,
            Err(e) => {
                return Err(e);
            },
        };
        let ghost orig = self.attachment_links.deep_view();
        let ghost tagv = tag@;
        let ghost keep = |l: AttachmentLinkAbs| !(l.base == input.unit_hash && l.tag == tagv);
        let mut i: usize = 0;
        let ghost mut j: int = 0;
        proof {
            reveal(Seq::filter);
            assert(orig.take(0) =~= Seq::<AttachmentLinkAbs>::empty());
            assert(self.attachment_links.deep_view().take(0) =~= orig.take(0).filter(keep));
            assert(self.attachment_links.deep_view().skip(0) =~= orig.skip(0));
        }
        while i < self.attachment_links.len()
            invariant
                0 <= j <= orig.len(),
                i <= self.attachment_links.len(),
                tagv == spec_attachment_tag(input.attachment),
                keep == (|l: AttachmentLinkAbs|
                    !(l.base == input.unit_hash && l.tag == tagv)),
                tag@ == tagv,
                self.attachment_links.deep_view().take(i as int) == orig.take(j).filter(keep),
                self.attachment_links.deep_view().skip(i as int) =~= orig.skip(j),
                self.records == old(self).records,
                self.index_links == old(self).index_links,
            decreases self.attachment_links.len() - i,
        {
            let ghost dv = self.attachment_links.deep_view();
            proof {
                assert(dv.skip(i as int).len() > 0);
                assert(dv[i as int] == dv.skip(i as int)[0]);
                assert(dv[i as int] == orig[j]);
                assert(orig.take(j + 1) =~= orig.take(j).push(orig[j]));
                reveal(Seq::filter);
                assert(orig.take(j + 1).drop_last() =~= orig.take(j));
                assert(self.attachment_links@[i as int]@ == dv[i as int]);
            }
            if self.attachment_links[i].base == input.unit_hash && self.attachment_links[i].tag
                == tag {
                proof {
                    assert(!keep(orig[j]));
                }
                self.attachment_links.remove(i);
                proof {
                    assert(self.attachment_links.deep_view() =~= dv.remove(i as int));
                    assert(self.attachment_links.deep_view().take(i as int) =~= dv.take(i as int));
                    assert(self.attachment_links.deep_view().skip(i as int) =~= dv.skip(
                        i as int + 1,
                    ));
                    assert(dv.skip(i as int).skip(1) =~= dv.skip(i as int + 1));
                    assert(orig.skip(j).skip(1) =~= orig.skip(j + 1));
                }
            } else {
                proof {
                    assert(keep(orig[j]));
                    assert(dv.take(i as int + 1) =~= dv.take(i as int).push(orig[j]));
                    assert(dv.skip(i as int).skip(1) =~= dv.skip(i as int + 1));
                    assert(orig.skip(j).skip(1) =~= orig.skip(j + 1));
                }
                i = i + 1;
            }
            proof {
                j = j + 1;
            }
        }
        proof {
            assert(orig.take(j) =~= orig);
            assert(self.attachment_links.deep_view().take(i as int)
                =~= self.attachment_links.deep_view());
        }
        Ok(())
    }

    /// Lists the external references attached to a unit, decoding every
    /// attachment link's tag; fails with `BadLinkTag` exactly when some tag
    /// on the unit decodes in no way.
    pub fn get_attachments(&self, unit_hash: EntryHash) -> (r: Result<
        Vec<HrlB64WithContext>,
        BranchyError,
    >)
        ensures
            match r {
                Ok(outs) => {
                    &&& outs@.len() == self.attachment_links.deep_view().filter(
                        |l: AttachmentLinkAbs| l.base == unit_hash,
                    ).len()
                    &&& forall|i: int|
                        0 <= i < outs@.len() ==> spec_attach_decode(
                            self.attachment_links.deep_view().filter(
                                |l: AttachmentLinkAbs| l.base == unit_hash,
                            )[i].tag,
                        ) == Some(
                            (
                                (#[trigger] outs@[i]).hrl.0@,
                                outs@[i].hrl.1@,
                                outs@[i].context.deep_view(),
                            ),
                        )
                },
                Err(e) => e == BranchyError::BadLinkTag && exists|k: int|
                    0 <= k < self.attachment_links.deep_view().len() && (
                    #[trigger] self.attachment_links.deep_view()[k]).base == unit_hash
                        && spec_attach_decode(self.attachment_links.deep_view()[k].tag) is None,
            },
    {
        let ghost orig = self.attachment_links.deep_view();
        let ghost pred = |l: AttachmentLinkAbs| l.base == unit_hash;
        let mut outs: Vec<HrlB64WithContext> = Vec::new();
        let mut k: usize = 0;
        proof {
            reveal(Seq::filter);
            assert(orig.take(0) =~= Seq::<AttachmentLinkAbs>::empty());
        }
        while k < self.attachment_links.len()
            invariant
                k <= self.attachment_links.len(),
                orig == self.attachment_links.deep_view(),
                pred == (|l: AttachmentLinkAbs| l.base == unit_hash),
                outs@.len() == orig.take(k as int).filter(pred).len(),
                forall|i: int|
                    0 <= i < outs@.len() ==> spec_attach_decode(
                        orig.take(k as int).filter(pred)[i].tag,
                    ) == Some(
                        (
                            (#[trigger] outs@[i]).hrl.0@,
                            outs@[i].hrl.1@,
                            outs@[i].context.deep_view(),
                        ),
                    ),
            decreases self.attachment_links.len() - k,
        {
            let ghost before = orig.take(k as int).filter(pred);
            proof {
                reveal(Seq::filter);
                assert(orig.take(k as int + 1) =~= orig.take(k as int).push(orig[k as int]));
                assert(orig.take(k as int + 1).drop_last() =~= orig.take(k as int));
                assert(self.attachment_links@[k as int]@ == orig[k as int]);
            }
            if self.attachment_links[k].base == unit_hash {
                match convert_attachment_tag(self.attachment_links[k].tag.as_str()) {
                    Ok(v) => {
                        let ghost outs_old = outs@;
                        outs.push(v);
                        proof {
                            assert(orig.take(k as int + 1).filter(pred) =~= before.push(
                                orig[k as int],
                            ));
                            assert(outs@ =~= outs_old.push(v));
                        }
                    },
                    Err(e) => {
                        proof {
                            assert(orig[k as int].base == unit_hash && spec_attach_decode(
                                orig[k as int].tag,
                            ) is None);
                        }
                        return Err(e);
                    },
                }
            } else {
                proof {
                    assert(orig.take(k as int + 1).filter(pred) == before);
                }
            }
            k = k + 1;
        }
        proof {
            assert(orig.take(self.attachment_links.len() as int) =~= orig);
        }
        Ok(outs)
    }
}

} // verus!
