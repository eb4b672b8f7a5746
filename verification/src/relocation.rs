//! The plain-data side of map copy/move relocations: the result records,
//! the pre-flight decisions, the batching rules that split a relocation's
//! mutations into envelopes, and the order in which a transfer's steps are
//! taken (`Transfer`), which the caller drives against the backend.
//!
//! A relocation is a recoverable copy-then-delete transaction staged as
//! mutation envelopes of bounded size. Plain operations split at the bound;
//! a connection's creation and its member exits never straddle an envelope
//! boundary, because a connection without members is structurally invalid
//! at a boundary.

use vstd::prelude::*;

verus! {

/// Whether the source survives a relocation.
#[derive(Debug, Clone, Copy, PartialEq, Eq, Structural)]
pub enum RelocationMode {
    Copy,
    Move,
}

/// The result of relocating one or more areas, in source order.
#[derive(Debug, Clone, PartialEq, Eq)]
pub struct MapRelocation<A, D> {
    pub source_ids: Vec<A>,
    pub destination_ids: Vec<A>,
    pub destination: D,
}

/// The result of copying or moving an atlas and all of its member areas.
#[derive(Debug, Clone, PartialEq, Eq)]
pub struct AtlasRelocation<A, T, D> {
    pub source_atlas_id: T,
    pub destination_atlas_id: T,
    pub destination_atlas_name: String,
    pub areas: MapRelocation<A, D>,
}

/// One mutation envelope: the operations staged against one area, under a
/// description of the step they belong to.
#[derive(Debug, Clone, PartialEq, Eq)]
pub struct AreaBatch<X> {
    pub area_id: u128,
    pub description: String,
    pub operations: Vec<X>,
}

/// The operations of a list of envelopes.
pub open spec fn batches_view<X>(batches: Seq<AreaBatch<X>>) -> Seq<Seq<X>> {
    batches.map_values(|b: AreaBatch<X>| b.operations@)
}

/// Every envelope targets `area_id` under `description`.
pub open spec fn all_addressed<X>(batches: Seq<AreaBatch<X>>, area_id: u128, description: Seq<char>) -> bool {
    forall|i: int|
        0 <= i < batches.len() ==> (#[trigger] batches[i]).area_id == area_id && batches[i].description@
            == description
}

/// Split `operations` into envelopes of `limit` operations each against
/// `area_id`, the last one holding the remainder; order is kept and
/// nothing is dropped.
pub fn chunk_ops<X>(area_id: u128, operations: Vec<X>, description: &str, limit: usize) -> (r: Vec<AreaBatch<X>>)
    requires
        limit > 0,
    ensures
        batches_view(r@).flatten() == operations@,
        forall|i: int| 0 <= i < r@.len() ==> 0 < (#[trigger] r@[i]).operations@.len() <= limit,
        forall|i: int| 0 <= i < r@.len() - 1 ==> (#[trigger] r@[i]).operations@.len() == limit,
        all_addressed(r@, area_id, description@),
{
    let mut batches: Vec<AreaBatch<X>> = Vec::new();
    let mut rest = operations;
    while rest.len() > 0
        invariant
            limit > 0,
            batches_view(batches@).flatten() + rest@ == operations@,
            forall|i: int| 0 <= i < batches@.len() ==> (#[trigger] batches@[i]).operations@.len() == limit,
            all_addressed(batches@, area_id, description@),
        decreases rest@.len(),
    {
        let ghost before = batches@;
        if rest.len() <= limit {
            let last = rest;
            rest = Vec::new();
            let ghost ops = last@;
            batches.push(AreaBatch { area_id, description: description.to_owned(), operations: last });
            proof {
                assert(batches_view(batches@) =~= batches_view(before).push(ops));
                batches_view(before).lemma_flatten_push(ops);
                assert(batches_view(batches@).flatten() + rest@ =~= operations@);
            }
            proof {
                assert forall|i: int| 0 <= i < batches@.len() implies 0 < (#[trigger] batches@[i]).operations@.len()
                    <= limit by {
                    if i < before.len() {
                        assert(batches@[i] == before[i]);
                    }
                }
                assert forall|i: int| 0 <= i < batches@.len() - 1 implies (#[trigger] batches@[i]).operations@.len()
                    == limit by {
                    assert(batches@[i] == before[i]);
                }
                assert forall|i: int| 0 <= i < batches@.len() implies (#[trigger] batches@[i]).area_id == area_id
                    && batches@[i].description@ == description@ by {
                    if i < before.len() {
                        assert(batches@[i] == before[i]);
                    }
                }
            }
            return batches;
        }
        let tail = rest.split_off(limit);
        let head = rest;
        rest = tail;
        let ghost ops = head@;
        batches.push(AreaBatch { area_id, description: description.to_owned(), operations: head });
        proof {
            assert(batches_view(batches@) =~= batches_view(before).push(ops));
            batches_view(before).lemma_flatten_push(ops);
            assert(batches_view(batches@).flatten() + rest@ =~= operations@);
            assert forall|i: int| 0 <= i < batches@.len() implies (#[trigger] batches@[i]).operations@.len() == limit by {
                if i < before.len() {
                    assert(batches@[i] == before[i]);
                }
            }
            assert forall|i: int| 0 <= i < batches@.len() implies (#[trigger] batches@[i]).area_id == area_id
                && batches@[i].description@ == description@ by {
                if i < before.len() {
                    assert(batches@[i] == before[i]);
                }
            }
        }
    }
    proof {
        assert(rest@ =~= Seq::<X>::empty());
        assert(batches_view(batches@).flatten() + rest@ =~= batches_view(batches@).flatten());
    }
    batches
}

/// One operation of a connection-copy envelope: create the connection at
/// this index, or create the exit at this index of the document's exits
/// (rooms in order, each room's exits in order).
#[derive(Debug, Clone, Copy, PartialEq, Eq, Structural)]
pub enum BatchItem {
    Connection(usize),
    Exit(usize),
}

/// The member exits of the connection `id` among the first `n` exits.
pub open spec fn member_exits(exit_connections: Seq<u128>, id: u128, n: int) -> Seq<BatchItem>
    decreases n,
{
    if n <= 0 {
        Seq::empty()
    } else if exit_connections[n - 1] == id {
        member_exits(exit_connections, id, n - 1).push(BatchItem::Exit((n - 1) as usize))
    } else {
        member_exits(exit_connections, id, n - 1)
    }
}

/// A connection's creation followed by the creation of its member exits.
pub open spec fn connection_group(connections: Seq<u128>, exit_connections: Seq<u128>, c: int) -> Seq<
    BatchItem,
> {
    seq![BatchItem::Connection(c as usize)] + member_exits(exit_connections, connections[c], exit_connections.len() as int)
}

/// Greedy packing of whole groups: the closed envelopes and the open one
/// after the first `n` groups. A group that would overflow a non-empty open
/// envelope closes it first; a group is never split.
pub open spec fn pack_state<X>(groups: Seq<Seq<X>>, limit: nat, n: int) -> (Seq<Seq<X>>, Seq<X>)
    decreases n,
{
    if n <= 0 {
        (Seq::empty(), Seq::empty())
    } else {
        let (closed, open) = pack_state(groups, limit, n - 1);
        let g = groups[n - 1];
        if open.len() + g.len() > limit && open.len() > 0 {
            (closed.push(open), g)
        } else {
            (closed, open + g)
        }
    }
}

/// The envelopes of a greedy packing of `groups`.
pub open spec fn pack_groups<X>(groups: Seq<Seq<X>>, limit: nat) -> Seq<Seq<X>> {
    let (closed, open) = pack_state(groups, limit, groups.len() as int);
    if open.len() > 0 {
        closed.push(open)
    } else {
        closed
    }
}

/// The connection-copy envelopes of a document with the given connection
/// ids and per-exit connection ids.
pub open spec fn spec_connection_batches(connections: Seq<u128>, exit_connections: Seq<u128>, limit: nat) -> Seq<
    Seq<BatchItem>,
> {
    pack_groups(
        Seq::new(connections.len(), |c: int| connection_group(connections, exit_connections, c)),
        limit,
    )
}

proof fn lemma_pack_state<X>(groups: Seq<Seq<X>>, limit: nat, n: int)
    requires
        0 <= n <= groups.len(),
    ensures
        pack_state(groups, limit, n).0.flatten() + pack_state(groups, limit, n).1 == groups.take(n).flatten(),
        forall|i: int| 0 <= i < pack_state(groups, limit, n).0.len() ==> (#[trigger] pack_state(groups, limit, n).0[i]).len() > 0,
    decreases n,
{
    if n > 0 {
        lemma_pack_state(groups, limit, n - 1);
        let (closed, open) = pack_state(groups, limit, n - 1);
        let g = groups[n - 1];
        assert(groups.take(n) =~= groups.take(n - 1).push(g));
        groups.take(n - 1).lemma_flatten_push(g);
        if open.len() + g.len() > limit && open.len() > 0 {
            closed.lemma_flatten_push(open);
            assert(closed.push(open).flatten() + g =~= closed.flatten() + open + g);
        } else {
            assert(closed.flatten() + (open + g) =~= closed.flatten() + open + g);
        }
    } else {
        assert(groups.take(0) =~= Seq::<Seq<X>>::empty());
        assert(pack_state(groups, limit, n).0.flatten() + pack_state(groups, limit, n).1 =~= Seq::<X>::empty());
    }
}

/// Packing keeps every operation, in order.
pub proof fn lemma_pack_groups_flatten<X>(groups: Seq<Seq<X>>, limit: nat)
    ensures
        pack_groups(groups, limit).flatten() == groups.flatten(),
        forall|i: int| 0 <= i < pack_groups(groups, limit).len() ==> (#[trigger] pack_groups(groups, limit)[i]).len() > 0,
{
    lemma_pack_state(groups, limit, groups.len() as int);
    assert(groups.take(groups.len() as int) =~= groups);
    let (closed, open) = pack_state(groups, limit, groups.len() as int);
    if open.len() > 0 {
        closed.lemma_flatten_push(open);
    } else {
        assert(closed.flatten() + open =~= closed.flatten());
    }
}

/// The description every connection-copy envelope carries.
pub open spec fn connections_description() -> Seq<char> {
    "Copy map connections"@
}

/// The connection-copy envelopes of the document `area_id`: each
/// connection's creation with its member exits (`exit_connections[j]` is
/// the connection of exit `j`), packed greedily into envelopes of at most
/// `limit` operations where a single group fits, each envelope against
/// `area_id`.
pub fn connection_batches(area_id: u128, connections: &[u128], exit_connections: &[u128], limit: usize) -> (r: Vec<
    AreaBatch<BatchItem>,
>)
    ensures
        batches_view(r@) == spec_connection_batches(connections@, exit_connections@, limit as nat),
        all_addressed(r@, area_id, connections_description()),
{
    let mut closed: Vec<AreaBatch<BatchItem>> = Vec::new();
    let mut open: Vec<BatchItem> = Vec::new();
    let ghost groups = Seq::new(
        connections@.len(),
        |c: int| connection_group(connections@, exit_connections@, c),
    );
    let mut c: usize = 0;
    while c < connections.len()
        invariant
            c <= connections@.len(),
            groups == Seq::new(
                connections@.len(),
                |c: int| connection_group(connections@, exit_connections@, c),
            ),
            (batches_view(closed@), open@) == pack_state(groups, limit as nat, c as int),
            all_addressed(closed@, area_id, connections_description()),
        decreases connections@.len() - c,
    {
        let id = connections[c];
        let mut group: Vec<BatchItem> = Vec::new();
        group.push(BatchItem::Connection(c));
        let mut j: usize = 0;
        while j < exit_connections.len()
            invariant
                j <= exit_connections@.len(),
                id == connections@[c as int],
                group@ == seq![BatchItem::Connection(c)] + member_exits(exit_connections@, id, j as int),
            decreases exit_connections@.len() - j,
        {
            if exit_connections[j] == id {
                group.push(BatchItem::Exit(j));
                proof {
                    assert(group@ =~= seq![BatchItem::Connection(c)] + member_exits(
                        exit_connections@,
                        id,
                        j + 1,
                    ));
                }
            }
            j += 1;
        }
        proof {
            assert(group@ == groups[c as int]);
        }
        let ghost before_closed = closed@;
        let overflows = if group.len() > limit {
            true
        } else {
            open.len() > limit - group.len()
        };
        if overflows && open.len() > 0 {
            let full = open;
            open = group;
            let ghost ops = full@;
            closed.push(connection_envelope(area_id, full));
            proof {
                assert(batches_view(closed@) =~= batches_view(before_closed).push(ops));
                assert forall|i: int| 0 <= i < closed@.len() implies (#[trigger] closed@[i]).area_id == area_id
                    && closed@[i].description@ == connections_description() by {
                    if i < before_closed.len() {
                        assert(closed@[i] == before_closed[i]);
                    }
                }
            }
        } else {
            let mut g = group;
            open.append(&mut g);
        }
        c += 1;
    }
    let ghost before_closed = closed@;
    if open.len() > 0 {
        let ghost ops = open@;
        closed.push(connection_envelope(area_id, open));
        proof {
            assert(batches_view(closed@) =~= batches_view(before_closed).push(ops));
            assert forall|i: int| 0 <= i < closed@.len() implies (#[trigger] closed@[i]).area_id == area_id
                && closed@[i].description@ == connections_description() by {
                if i < before_closed.len() {
                    assert(closed@[i] == before_closed[i]);
                }
            }
        }
    }
    proof {
        assert(groups.len() == connections@.len());
    }
    closed
}

fn connection_envelope(area_id: u128, operations: Vec<BatchItem>) -> (r: AreaBatch<BatchItem>)
    ensures
        r.area_id == area_id,
        r.description@ == connections_description(),
        r.operations == operations,
{
    AreaBatch { area_id, description: String::from_str("Copy map connections"), operations }
}

// ----------------------------------------------------------------------
// Pre-flight decisions
// ----------------------------------------------------------------------

/// What the mapper knows of one source area before a relocation.
#[derive(Debug, Clone, Copy, PartialEq, Eq, Structural)]
pub struct SourceArea {
    /// The area is in the loaded atlas.
    pub found: bool,
    /// The current access lets it be copied.
    pub can_copy: bool,
    /// The user owns it.
    pub is_owner: bool,
    /// It already lives in the destination's storage tier.
    pub same_tier: bool,
}

/// Why an area relocation is refused before anything is touched.
#[derive(Debug, Clone, Copy, PartialEq, Eq, Structural)]
pub enum AreaRefusal {
    /// Session maps cannot be filed into atlases.
    SessionAtlas,
    /// The destination atlas belongs to a different storage tier.
    AtlasTier,
    /// The same area is named twice.
    Duplicate,
    /// The `i`th source is not loaded.
    NotFound(usize),
    /// The `i`th source cannot be copied with the current access.
    NotCopyable(usize),
    /// The `i`th source is shared with the user and cannot be moved.
    NotMovable(usize),
}

/// How an accepted area relocation proceeds.
#[derive(Debug, Clone, Copy, PartialEq, Eq, Structural)]
pub enum AreaPlan {
    /// Nothing to relocate.
    Nothing,
    /// A move within one storage tier: a folder change keeping the ids.
    FolderChange,
    /// Copy every source into fresh destination areas (then, for a move,
    /// delete the sources once the copies are acknowledged).
    Transfer,
}

/// Whether `ids` names some area twice.
pub open spec fn has_duplicate(ids: Seq<u128>) -> bool {
    exists|i: int, j: int| 0 <= i < j < ids.len() && ids[i] == ids[j]
}

/// The first source among the first `n` that refuses the relocation, and
/// why.
pub open spec fn first_refusal(sources: Seq<SourceArea>, mode: RelocationMode, n: int) -> Option<AreaRefusal>
    decreases n,
{
    if n <= 0 {
        None
    } else {
        match first_refusal(sources, mode, n - 1) {
            Some(r) => Some(r),
            None => {
                let s = sources[n - 1];
                let i = (n - 1) as usize;
                if !s.found {
                    Some(AreaRefusal::NotFound(i))
                } else if !s.can_copy {
                    Some(AreaRefusal::NotCopyable(i))
                } else if mode == RelocationMode::Move && !s.is_owner {
                    Some(AreaRefusal::NotMovable(i))
                } else {
                    None
                }
            },
        }
    }
}

proof fn lemma_refusal_stays(sources: Seq<SourceArea>, mode: RelocationMode, a: int, b: int)
    requires
        0 <= a <= b,
        first_refusal(sources, mode, a) is Some,
    ensures
        first_refusal(sources, mode, b) == first_refusal(sources, mode, a),
    decreases b - a,
{
    if a < b {
        lemma_refusal_stays(sources, mode, a, b - 1);
    }
}

/// The decision on an area relocation: to session storage no atlas; an
/// atlas only of the destination's tier; nothing to do for no source; no
/// area twice; every source loaded, copyable, and for a move owned; a move
/// that stays in its tier only changes folders.
pub open spec fn spec_area_plan(
    to_session: bool,
    into_atlas: Option<bool>,
    source_ids: Seq<u128>,
    sources: Seq<SourceArea>,
    mode: RelocationMode,
) -> Result<AreaPlan, AreaRefusal> {
    if to_session && into_atlas is Some {
        Err(AreaRefusal::SessionAtlas)
    } else if into_atlas == Some(false) {
        Err(AreaRefusal::AtlasTier)
    } else if source_ids.len() == 0 {
        Ok(AreaPlan::Nothing)
    } else if has_duplicate(source_ids) {
        Err(AreaRefusal::Duplicate)
    } else {
        match first_refusal(sources, mode, sources.len() as int) {
            Some(r) => Err(r),
            None => if mode == RelocationMode::Move && forall|i: int| 0 <= i < sources.len() ==> (#[trigger] sources[i]).same_tier {
                Ok(AreaPlan::FolderChange)
            } else {
                Ok(AreaPlan::Transfer)
            },
        }
    }
}

/// A relocation keeps the area ids (a folder change) only for a move in
/// which every source already lives in the destination tier; a copy, or a
/// move with any source in another tier, that passes the checks transfers
/// every area.
pub proof fn lemma_folder_change_needs_every_source_in_tier(
    to_session: bool,
    into_atlas: Option<bool>,
    source_ids: Seq<u128>,
    sources: Seq<SourceArea>,
    mode: RelocationMode,
)
    ensures
        spec_area_plan(to_session, into_atlas, source_ids, sources, mode) == Ok::<AreaPlan, AreaRefusal>(
            AreaPlan::FolderChange,
        ) ==> mode == RelocationMode::Move && forall|i: int| 0 <= i < sources.len() ==> (#[trigger] sources[i]).same_tier,
        spec_area_plan(to_session, into_atlas, source_ids, sources, mode) is Ok && spec_area_plan(
            to_session,
            into_atlas,
            source_ids,
            sources,
            mode,
        ) != Ok::<AreaPlan, AreaRefusal>(AreaPlan::Nothing) && (mode == RelocationMode::Copy || exists|i: int|
            0 <= i < sources.len() && !(#[trigger] sources[i]).same_tier) ==> spec_area_plan(
            to_session,
            into_atlas,
            source_ids,
            sources,
            mode,
        ) == Ok::<AreaPlan, AreaRefusal>(AreaPlan::Transfer),
{
}

fn any_duplicate(ids: &[u128]) -> (r: bool)
    ensures
        r == has_duplicate(ids@),
{
    let mut j: usize = 0;
    while j < ids.len()
        invariant
            j <= ids@.len(),
            forall|a: int, b: int| 0 <= a < b < j ==> ids@[a] != ids@[b],
        decreases ids@.len() - j,
    {
        let mut i: usize = 0;
        while i < j
            invariant
                i <= j < ids@.len(),
                forall|a: int| 0 <= a < i ==> ids@[a] != ids@[j as int],
            decreases j - i,
        {
            if ids[i] == ids[j] {
                return true;
            }
            i += 1;
        }
        j += 1;
    }
    false
}

/// Decide an area relocation before touching anything. `into_atlas` is
/// whether the destination atlas, if one is named, shares the destination's
/// storage tier; `sources` describes each source id, in order.
#[verifier::loop_isolation(false)]
pub fn plan_area_relocation(
    to_session: bool,
    into_atlas: Option<bool>,
    source_ids: &[u128],
    sources: &[SourceArea],
    mode: RelocationMode,
) -> (r: Result<AreaPlan, AreaRefusal>)
    requires
        sources@.len() == source_ids@.len(),
    ensures
        r == spec_area_plan(to_session, into_atlas, source_ids@, sources@, mode),
{
    if to_session && into_atlas.is_some() {
        return Err(AreaRefusal::SessionAtlas);
    }
    if let Some(false) = into_atlas {
        return Err(AreaRefusal::AtlasTier);
    }
    if source_ids.len() == 0 {
        return Ok(AreaPlan::Nothing);
    }
    if any_duplicate(source_ids) {
        return Err(AreaRefusal::Duplicate);
    }
    let mut i: usize = 0;
    let mut all_same_tier = true;
    while i < sources.len()
        invariant
            i <= sources@.len(),
            first_refusal(sources@, mode, i as int) is None,
            all_same_tier == forall|k: int| 0 <= k < i ==> (#[trigger] sources@[k]).same_tier,
        decreases sources@.len() - i,
    {
        let s = sources[i];
        if !s.found || !s.can_copy || (mode == RelocationMode::Move && !s.is_owner) {
            proof {
                lemma_refusal_stays(sources@, mode, i + 1, sources@.len() as int);
            }
            if !s.found {
                return Err(AreaRefusal::NotFound(i));
            }
            if !s.can_copy {
                return Err(AreaRefusal::NotCopyable(i));
            }
            return Err(AreaRefusal::NotMovable(i));
        }
        all_same_tier = all_same_tier && s.same_tier;
        i += 1;
    }
    if mode == RelocationMode::Move && all_same_tier {
        Ok(AreaPlan::FolderChange)
    } else {
        Ok(AreaPlan::Transfer)
    }
}

/// Why an atlas relocation is refused before anything is touched.
#[derive(Debug, Clone, Copy, PartialEq, Eq, Structural)]
pub enum AtlasRefusal {
    /// Session storage does not hold atlases.
    SessionStorage,
    /// A move into the tier the atlas is already in.
    SameTier,
    /// No such atlas.
    NotFound,
    /// A shared atlas cannot be copied or moved.
    Shared,
    /// Not every member is loaded: the cache and the inventory disagree.
    Incomplete,
}

/// The number of distinct ids among the first `n` of `ids`.
pub open spec fn distinct_count(ids: Seq<u128>, n: int) -> nat
    decreases n,
{
    if n <= 0 {
        0
    } else if ids.take(n - 1).contains(ids[n - 1]) {
        distinct_count(ids, n - 1)
    } else {
        distinct_count(ids, n - 1) + 1
    }
}

/// Whether two lists name the same areas.
pub open spec fn same_members(a: Seq<u128>, b: Seq<u128>) -> bool {
    forall|x: u128| a.contains(x) <==> b.contains(x)
}

/// The decision on an atlas relocation: never into session storage; a move
/// must change tiers; the atlas must exist and be the user's own; and the
/// cache must hold exactly the members the inventory lists, as many as the
/// atlas reports, so a failed load cannot become a partial atlas move.
pub open spec fn spec_atlas_plan(
    to_session: bool,
    same_tier: bool,
    mode: RelocationMode,
    owner: Option<bool>,
    listed: Seq<u128>,
    cached: Seq<u128>,
    area_count: i64,
) -> Result<(), AtlasRefusal> {
    if to_session {
        Err(AtlasRefusal::SessionStorage)
    } else if mode == RelocationMode::Move && same_tier {
        Err(AtlasRefusal::SameTier)
    } else if owner is None {
        Err(AtlasRefusal::NotFound)
    } else if owner == Some(false) {
        Err(AtlasRefusal::Shared)
    } else if !same_members(listed, cached) || area_count < 0 || area_count != distinct_count(cached, cached.len() as int) {
        Err(AtlasRefusal::Incomplete)
    } else {
        Ok(())
    }
}

fn holds(ids: &[u128], x: u128, n: usize) -> (r: bool)
    requires
        n <= ids@.len(),
    ensures
        r == ids@.take(n as int).contains(x),
{
    let mut i: usize = 0;
    while i < n
        invariant
            n <= ids@.len(),
            i <= n,
            forall|k: int| 0 <= k < i ==> ids@[k] != x,
        decreases n - i,
    {
        if ids[i] == x {
            proof {
                assert(ids@.take(n as int)[i as int] == x);
            }
            return true;
        }
        i += 1;
    }
    proof {
        assert forall|k: int| 0 <= k < ids@.take(n as int).len() implies ids@.take(n as int)[k] != x by {
            assert(ids@.take(n as int)[k] == ids@[k]);
        }
    }
    false
}

fn all_within(a: &[u128], b: &[u128]) -> (r: bool)
    ensures
        r == forall|x: u128| a@.contains(x) ==> b@.contains(x),
{
    let mut i: usize = 0;
    while i < a.len()
        invariant
            i <= a@.len(),
            forall|k: int| 0 <= k < i ==> b@.contains(#[trigger] a@[k]),
        decreases a@.len() - i,
    {
        let present = holds(b, a[i], b.len());
        proof {
            assert(b@.take(b@.len() as int) =~= b@);
        }
        if !present {
            proof {
                assert(a@.contains(a@[i as int]));
            }
            return false;
        }
        i += 1;
    }
    proof {
        assert forall|x: u128| a@.contains(x) implies b@.contains(x) by {
            let k = choose|k: int| 0 <= k < a@.len() && a@[k] == x;
            assert(b@.contains(a@[k]));
        }
    }
    true
}

/// Decide an atlas relocation before touching anything. `owner` is whether
/// the user owns the atlas (`None`: no such atlas); `listed` and `cached`
/// are its members as the inventory lists them and as the cache holds them.
pub fn plan_atlas_relocation(
    to_session: bool,
    same_tier: bool,
    mode: RelocationMode,
    owner: Option<bool>,
    listed: &[u128],
    cached: &[u128],
    area_count: i64,
) -> (r: Result<(), AtlasRefusal>)
    ensures
        r == spec_atlas_plan(to_session, same_tier, mode, owner, listed@, cached@, area_count),
{
    if to_session {
        return Err(AtlasRefusal::SessionStorage);
    }
    if mode == RelocationMode::Move && same_tier {
        return Err(AtlasRefusal::SameTier);
    }
    match owner {
        None => {
            return Err(AtlasRefusal::NotFound);
        },
        Some(false) => {
            return Err(AtlasRefusal::Shared);
        },
        Some(true) => {},
    }
    let same = all_within(listed, cached) && all_within(cached, listed);
    let mut distinct: u64 = 0;
    let mut i: usize = 0;
    while i < cached.len()
        invariant
            i <= cached@.len(),
            distinct == distinct_count(cached@, i as int),
            distinct <= i,
        decreases cached@.len() - i,
    {
        if !holds(cached, cached[i], i) {
            distinct = distinct + 1;
        }
        i += 1;
    }
    if !same || area_count < 0 || area_count as u64 != distinct {
        return Err(AtlasRefusal::Incomplete);
    }
    Ok(())
}

// ----------------------------------------------------------------------
// Freshening a copied document
// ----------------------------------------------------------------------

/// The area that `old` was relocated to, by the first pair of `id_map`
/// whose source is `old`.
pub open spec fn mapped_area(id_map: Seq<(u128, u128)>, old: u128) -> Option<u128>
    decreases id_map.len(),
{
    if id_map.len() == 0 {
        None
    } else if id_map[0].0 == old {
        Some(id_map[0].1)
    } else {
        mapped_area(id_map.drop_first(), old)
    }
}

/// Where a copied exit to another area now leads: that area's copy when it
/// was relocated along (`id_map` pairs each source with its destination),
/// nowhere otherwise.
pub open spec fn spec_retarget(to_area: Option<u128>, id_map: Seq<(u128, u128)>) -> Option<u128> {
    match to_area {
        Some(old) => mapped_area(id_map, old),
        None => None,
    }
}

/// A copied exit's new target area, and whether it keeps its destination
/// room and arrival direction: a link into the relocated set follows the
/// copy; a link leaving the set loses its target, room and direction.
pub fn retarget_exit(to_area: Option<u128>, id_map: &[(u128, u128)]) -> (r: (Option<u128>, bool))
    ensures
        r.0 == spec_retarget(to_area, id_map@),
        r.1 == (to_area is None || r.0 is Some),
{
    match to_area {
        None => (None, true),
        Some(old) => {
            let mut k: usize = 0;
            assert(id_map@.subrange(0, id_map@.len() as int) =~= id_map@);
            while k < id_map.len()
                invariant
                    k <= id_map@.len(),
                    to_area == Some(old),
                    mapped_area(id_map@, old) == mapped_area(id_map@.subrange(k as int, id_map@.len() as int), old),
                decreases id_map@.len() - k,
            {
                let ghost rest = id_map@.subrange(k as int, id_map@.len() as int);
                assert(rest[0] == id_map@[k as int]);
                if id_map[k].0 == old {
                    assert(mapped_area(rest, old) == Some(rest[0].1));
                    return (Some(id_map[k].1), true);
                }
                assert(rest.drop_first() =~= id_map@.subrange(k + 1, id_map@.len() as int));
                k += 1;
            }
            assert(id_map@.subrange(k as int, id_map@.len() as int).len() == 0);
            (None, false)
        },
    }
}

/// Whether connection `id` has a member exit that leaves the destination
/// area for another area.
pub open spec fn leaves_area(id: u128, exits: Seq<(u128, Option<u128>)>, destination: u128) -> bool {
    exists|k: int| 0 <= k < exits.len() && (#[trigger] exits[k]).0 == id && (exits[k].1 matches Some(a) && a != destination)
}

/// Which external connections become dangling in a copy: those no member
/// exit of which still leads to another area. `connections` pairs each
/// connection's id with whether it is external; `exits` pairs each exit's
/// connection with its (retargeted) destination area.
pub fn dangling_connections(connections: &[(u128, bool)], exits: &[(u128, Option<u128>)], destination: u128) -> (r: Vec<
    bool,
>)
    ensures
        r@.len() == connections@.len(),
        forall|i: int|
            0 <= i < connections@.len() ==> #[trigger] r@[i] == (connections@[i].1 && !leaves_area(
                connections@[i].0,
                exits@,
                destination,
            )),
{
    let mut out: Vec<bool> = Vec::new();
    let mut i: usize = 0;
    while i < connections.len()
        invariant
            i <= connections@.len(),
            out@.len() == i,
            forall|j: int|
                0 <= j < i ==> #[trigger] out@[j] == (connections@[j].1 && !leaves_area(connections@[j].0, exits@, destination)),
        decreases connections@.len() - i,
    {
        let (id, external) = connections[i];
        let mut leaves = false;
        let mut k: usize = 0;
        while k < exits.len()
            invariant
                k <= exits@.len(),
                leaves == exists|m: int| 0 <= m < k && (#[trigger] exits@[m]).0 == id && (exits@[m].1 matches Some(a) && a != destination),
            decreases exits@.len() - k,
        {
            let (conn, to_area) = exits[k];
            let hit = match to_area {
                Some(a) => conn == id && a != destination,
                None => false,
            };
            if hit {
                proof {
                    assert(exits@[k as int].0 == id);
                }
                leaves = true;
            }
            k += 1;
        }
        out.push(external && !leaves);
        i += 1;
    }
    out
}

// ----------------------------------------------------------------------
// The transfer, step by step
// ----------------------------------------------------------------------

/// The four staging rounds that fill the destination areas, in order: all
/// rooms of the set, then properties and tags, then connections and exits,
/// then labels and shapes.
#[derive(Debug, Clone, Copy, PartialEq, Eq, Structural)]
pub enum StageRound {
    Rooms,
    Properties,
    Connections,
    Decorations,
}

/// Where a transfer stands.
#[derive(Debug, Clone, Copy, PartialEq, Eq, Structural)]
pub enum TransferPhase {
    /// Creating destination headers; `made` are acknowledged.
    CreateHeaders { made: usize },
    /// A staging round is awaiting acknowledgement.
    Staging(StageRound),
    /// Deleting the sources of a move; `done` deletions are acknowledged.
    Commit { done: usize },
    /// Every step was acknowledged.
    Finished,
    /// A step failed; nothing more is done.
    Failed,
}

/// What the caller does next.
#[derive(Debug, Clone, Copy, PartialEq, Eq, Structural)]
pub enum TransferAction {
    /// Create the destination header of the `i`th source.
    CreateHeader(usize),
    /// Stage one round of mutations and wait for the backend.
    Stage(StageRound),
    /// Delete the first `count` destination areas again (best effort).
    CleanUp(usize),
    /// Delete the `i`th source: its copy is complete.
    CommitMove(usize),
    /// Report success.
    Finish,
    /// Report the failure.
    Fail,
}

/// How the last action went.
#[derive(Debug, Clone, Copy, PartialEq, Eq, Structural)]
pub enum TransferEvent {
    Acknowledged,
    Failed,
}

/// A copy-then-delete transfer of `areas` sources; `moving` deletes the
/// sources once every copy is acknowledged.
#[derive(Debug, Clone, Copy, PartialEq, Eq, Structural)]
pub struct Transfer {
    pub areas: usize,
    pub moving: bool,
    pub phase: TransferPhase,
}

/// How far along a phase is in the transfer's fixed order.
pub open spec fn phase_rank(phase: TransferPhase) -> int {
    match phase {
        TransferPhase::CreateHeaders { .. } => 0,
        TransferPhase::Staging(StageRound::Rooms) => 1,
        TransferPhase::Staging(StageRound::Properties) => 2,
        TransferPhase::Staging(StageRound::Connections) => 3,
        TransferPhase::Staging(StageRound::Decorations) => 4,
        TransferPhase::Commit { .. } => 5,
        TransferPhase::Finished => 6,
        TransferPhase::Failed => 6,
    }
}

/// The round after `round`, if any.
pub open spec fn next_round(round: StageRound) -> Option<StageRound> {
    match round {
        StageRound::Rooms => Some(StageRound::Properties),
        StageRound::Properties => Some(StageRound::Connections),
        StageRound::Connections => Some(StageRound::Decorations),
        StageRound::Decorations => None,
    }
}

/// The action a transfer takes after `event`. An acknowledgement moves on
/// in the fixed order: the next header, then the rooms round once every
/// header exists, each round after the one before, then (for a move) the
/// source deletions one by one, then finishing. A failure cleans up the
/// destination areas made so far before the first deletion, and only
/// reports itself after it. A finished or failed transfer stays so.
pub open spec fn spec_transfer_action(t: Transfer, event: TransferEvent) -> TransferAction {
    match (t.phase, event) {
        (TransferPhase::Finished, _) => TransferAction::Finish,
        (TransferPhase::Failed, _) => TransferAction::Fail,
        (TransferPhase::CreateHeaders { made }, TransferEvent::Failed) => TransferAction::CleanUp(made),
        (TransferPhase::Staging(_), TransferEvent::Failed) => TransferAction::CleanUp(t.areas),
        (TransferPhase::Commit { .. }, TransferEvent::Failed) => TransferAction::Fail,
        (TransferPhase::CreateHeaders { made }, TransferEvent::Acknowledged) => if made + 1 < t.areas {
            TransferAction::CreateHeader((made + 1) as usize)
        } else {
            TransferAction::Stage(StageRound::Rooms)
        },
        (TransferPhase::Staging(round), TransferEvent::Acknowledged) => match next_round(round) {
            Some(next) => TransferAction::Stage(next),
            None => if t.moving {
                TransferAction::CommitMove(0)
            } else {
                TransferAction::Finish
            },
        },
        (TransferPhase::Commit { done }, TransferEvent::Acknowledged) => if done + 1 < t.areas {
            TransferAction::CommitMove((done + 1) as usize)
        } else {
            TransferAction::Finish
        },
    }
}

/// The transfer's next state and action after `event`: the action, and
/// the phase that action leaves the transfer in.
#[verifier::opaque]
pub open spec fn spec_transfer_step(t: Transfer, event: TransferEvent) -> (Transfer, TransferAction) {
    let action = spec_transfer_action(t, event);
    (Transfer { areas: t.areas, moving: t.moving, phase: phase_after(action) }, action)
}

/// A transfer's first state and action: the first header, or done at once
/// when there is nothing to copy.
pub open spec fn spec_transfer_start(areas: usize, moving: bool) -> (Transfer, TransferAction) {
    if areas == 0 {
        (Transfer { areas, moving, phase: TransferPhase::Finished }, TransferAction::Finish)
    } else {
        (Transfer { areas, moving, phase: TransferPhase::CreateHeaders { made: 0 } }, TransferAction::CreateHeader(0))
    }
}

impl Transfer {
    /// Counts stay within the number of areas.
    pub open spec fn wf(self) -> bool {
        match self.phase {
            TransferPhase::CreateHeaders { made } => made < self.areas,
            TransferPhase::Staging(_) => self.areas > 0,
            TransferPhase::Commit { done } => self.moving && done < self.areas,
            _ => true,
        }
    }

    /// Begin a transfer of `areas` sources (already planned as a
    /// transfer): create the first header, or finish at once when there is
    /// nothing to copy.
    pub fn start(areas: usize, moving: bool) -> (r: (Transfer, TransferAction))
        ensures
            r.0.wf(),
            r == spec_transfer_start(areas, moving),
    {
        if areas == 0 {
            (Transfer { areas, moving, phase: TransferPhase::Finished }, TransferAction::Finish)
        } else {
            (Transfer { areas, moving, phase: TransferPhase::CreateHeaders { made: 0 } }, TransferAction::CreateHeader(0))
        }
    }

    /// Advance on the outcome of the last action: headers one by one, then
    /// the four staging rounds, then (for a move) the source deletions one
    /// by one. A failure before the first deletion cleans up every
    /// destination area made so far; a failure while deleting leaves the
    /// complete copies in place.
    pub fn step(&mut self, event: TransferEvent) -> (action: TransferAction)
        requires
            old(self).wf(),
        ensures
            final(self).wf(),
            (*final(self), action) == spec_transfer_step(*old(self), event),
    {
        proof {
            reveal(spec_transfer_step);
        }
        match self.phase {
            TransferPhase::CreateHeaders { made } => match event {
                TransferEvent::Acknowledged => {
                    if made + 1 < self.areas {
                        self.phase = TransferPhase::CreateHeaders { made: made + 1 };
                        TransferAction::CreateHeader(made + 1)
                    } else {
                        self.phase = TransferPhase::Staging(StageRound::Rooms);
                        TransferAction::Stage(StageRound::Rooms)
                    }
                },
                TransferEvent::Failed => {
                    self.phase = TransferPhase::Failed;
                    TransferAction::CleanUp(made)
                },
            },
            TransferPhase::Staging(round) => match event {
                TransferEvent::Acknowledged => {
                    let next = match round {
                        StageRound::Rooms => Some(StageRound::Properties),
                        StageRound::Properties => Some(StageRound::Connections),
                        StageRound::Connections => Some(StageRound::Decorations),
                        StageRound::Decorations => None,
                    };
                    match next {
                        Some(next) => {
                            self.phase = TransferPhase::Staging(next);
                            TransferAction::Stage(next)
                        },
                        None => if self.moving {
                            self.phase = TransferPhase::Commit { done: 0 };
                            TransferAction::CommitMove(0)
                        } else {
                            self.phase = TransferPhase::Finished;
                            TransferAction::Finish
                        },
                    }
                },
                TransferEvent::Failed => {
                    self.phase = TransferPhase::Failed;
                    TransferAction::CleanUp(self.areas)
                },
            },
            TransferPhase::Commit { done } => match event {
                TransferEvent::Acknowledged => {
                    if done + 1 < self.areas {
                        self.phase = TransferPhase::Commit { done: done + 1 };
                        TransferAction::CommitMove(done + 1)
                    } else {
                        self.phase = TransferPhase::Finished;
                        TransferAction::Finish
                    }
                },
                TransferEvent::Failed => {
                    self.phase = TransferPhase::Failed;
                    TransferAction::Fail
                },
            },
            TransferPhase::Finished => TransferAction::Finish,
            TransferPhase::Failed => TransferAction::Fail,
        }
    }
}

/// The actions a transfer takes on a run of outcomes.
pub open spec fn transfer_actions(t: Transfer, events: Seq<TransferEvent>) -> Seq<TransferAction>
    decreases events.len(),
{
    if events.len() == 0 {
        Seq::empty()
    } else {
        let (next, action) = spec_transfer_step(t, events[0]);
        seq![action] + transfer_actions(next, events.drop_first())
    }
}

/// The state a transfer reaches on a run of outcomes.
pub open spec fn transfer_after(t: Transfer, events: Seq<TransferEvent>) -> Transfer
    decreases events.len(),
{
    if events.len() == 0 {
        t
    } else {
        transfer_after(spec_transfer_step(t, events[0]).0, events.drop_first())
    }
}

/// How far along an action is in the transfer's fixed order.
pub open spec fn action_rank(a: TransferAction) -> int {
    match a {
        TransferAction::CreateHeader(_) => 0,
        TransferAction::Stage(StageRound::Rooms) => 1,
        TransferAction::Stage(StageRound::Properties) => 2,
        TransferAction::Stage(StageRound::Connections) => 3,
        TransferAction::Stage(StageRound::Decorations) => 4,
        TransferAction::CommitMove(_) => 5,
        _ => 6,
    }
}

/// The phase a transfer is in right after taking action `a`.
pub open spec fn phase_after(a: TransferAction) -> TransferPhase {
    match a {
        TransferAction::CreateHeader(k) => TransferPhase::CreateHeaders { made: k },
        TransferAction::Stage(r) => TransferPhase::Staging(r),
        TransferAction::CommitMove(k) => TransferPhase::Commit { done: k },
        TransferAction::Finish => TransferPhase::Finished,
        _ => TransferPhase::Failed,
    }
}

/// The action that must have been taken, and acknowledged, right before
/// `a` in a transfer of `areas` sources, where there is one.
pub open spec fn prerequisite(a: TransferAction, areas: usize) -> Option<TransferAction> {
    match a {
        TransferAction::CreateHeader(k) => if k == 0 {
            None
        } else {
            Some(TransferAction::CreateHeader((k - 1) as usize))
        },
        TransferAction::Stage(StageRound::Rooms) => Some(TransferAction::CreateHeader((areas - 1) as usize)),
        TransferAction::Stage(StageRound::Properties) => Some(TransferAction::Stage(StageRound::Rooms)),
        TransferAction::Stage(StageRound::Connections) => Some(TransferAction::Stage(StageRound::Properties)),
        TransferAction::Stage(StageRound::Decorations) => Some(TransferAction::Stage(StageRound::Connections)),
        TransferAction::CommitMove(k) => if k == 0 {
            Some(TransferAction::Stage(StageRound::Decorations))
        } else {
            Some(TransferAction::CommitMove((k - 1) as usize))
        },
        _ => None,
    }
}

/// Action `b` may follow action `a` on outcome `e`, in a transfer of
/// `areas` sources that deletes them when `moving`.
pub open spec fn linked(a: TransferAction, e: TransferEvent, b: TransferAction, areas: usize, moving: bool) -> bool {
    &&& action_rank(a) <= action_rank(b)
    &&& prerequisite(b, areas) matches Some(p) ==> a == p && e == TransferEvent::Acknowledged
    &&& b is CommitMove ==> moving
    &&& b is CleanUp ==> e == TransferEvent::Failed && (a is CreateHeader || a is Stage)
}

proof fn lemma_transfer_step(t: Transfer, prev: TransferAction, event: TransferEvent)
    requires
        t.wf(),
        t.phase == phase_after(prev),
    ensures
        ({
            let (next, action) = spec_transfer_step(t, event);
            &&& next.wf()
            &&& next.phase == phase_after(action)
            &&& next.areas == t.areas
            &&& next.moving == t.moving
            &&& linked(prev, event, action, t.areas, t.moving)
        }),
{
    reveal(spec_transfer_step);
}

proof fn lemma_transfer_trace(t: Transfer, prev: TransferAction, events: Seq<TransferEvent>)
    requires
        t.wf(),
        t.phase == phase_after(prev),
    ensures
        (seq![prev] + transfer_actions(t, events)).len() == events.len() + 1,
        forall|i: int|
            0 <= i < events.len() ==> #[trigger] linked(
                (seq![prev] + transfer_actions(t, events))[i],
                events[i],
                (seq![prev] + transfer_actions(t, events))[i + 1],
                t.areas,
                t.moving,
            ),
    decreases events.len(),
{
    let acts = seq![prev] + transfer_actions(t, events);
    if events.len() > 0 {
        let (next, action) = spec_transfer_step(t, events[0]);
        lemma_transfer_step(t, prev, events[0]);
        let tail = events.drop_first();
        lemma_transfer_trace(next, action, tail);
        let rest = seq![action] + transfer_actions(next, tail);
        assert(acts =~= seq![prev] + rest);
        assert forall|i: int| 0 <= i < events.len() implies #[trigger] linked(
            acts[i],
            events[i],
            acts[i + 1],
            t.areas,
            t.moving,
        ) by {
            if i > 0 {
                assert(acts[i] == rest[i - 1]);
                assert(acts[i + 1] == rest[(i - 1) + 1]);
                assert(events[i] == tail[i - 1]);
                assert(linked(rest[i - 1], tail[i - 1], rest[(i - 1) + 1], next.areas, next.moving));
            }
        }
    }
}

/// Every action a transfer of `areas` sources takes on a run of outcomes,
/// its first action included.
pub open spec fn run_actions(areas: usize, moving: bool, events: Seq<TransferEvent>) -> Seq<TransferAction> {
    seq![spec_transfer_start(areas, moving).1] + transfer_actions(spec_transfer_start(areas, moving).0, events)
}

/// The transfer's order holds on every run of outcomes. Each action is
/// taken only right after the one it depends on was acknowledged
/// (`linked`): headers one by one; all rooms of the set once every header
/// exists; properties, then connections and exits, then decorations, each
/// after the round before it; and the first source deletion only after the
/// last round, so every copy is complete before any source is removed.
/// Ranks never go back, so no room round follows an exit round and no
/// staging follows a deletion. Sources are deleted only in a move, and a
/// failure cleans up the destination only before the first deletion.
pub proof fn lemma_transfer_order(areas: usize, moving: bool, events: Seq<TransferEvent>)
    ensures
        run_actions(areas, moving, events).len() == events.len() + 1,
        forall|i: int|
            0 <= i < events.len() ==> #[trigger] linked(
                run_actions(areas, moving, events)[i],
                events[i],
                run_actions(areas, moving, events)[i + 1],
                areas,
                moving,
            ),
        forall|i: int, j: int|
            0 <= i <= j < events.len() + 1 ==> action_rank(#[trigger] run_actions(areas, moving, events)[i])
                <= action_rank(#[trigger] run_actions(areas, moving, events)[j]),
        forall|i: int|
            0 <= i < events.len() + 1 ==> (#[trigger] run_actions(areas, moving, events)[i] is CommitMove ==> moving),
{
    let t0 = spec_transfer_start(areas, moving).0;
    let a0 = spec_transfer_start(areas, moving).1;
    lemma_transfer_trace(t0, a0, events);
    let acts = run_actions(areas, moving, events);
    let seen = seq![a0] + transfer_actions(t0, events);
    assert(acts == seen);
    assert(t0.areas == areas && t0.moving == moving);
    assert forall|k: int| 0 <= k < events.len() implies linked(acts[k], events[k], acts[k + 1], areas, moving) by {
        assert(linked(seen[k], events[k], seen[k + 1], t0.areas, t0.moving));
    }
    assert forall|k: int| 0 <= k < acts.len() - 1 implies action_rank(#[trigger] acts[k]) <= action_rank(
        acts[k + 1],
    ) by {
        assert(linked(acts[k], events[k], acts[k + 1], areas, moving));
    }
    assert forall|i: int, j: int| 0 <= i <= j < acts.len() implies action_rank(#[trigger] acts[i]) <= action_rank(
        #[trigger] acts[j],
    ) by {
        lemma_ranks_climb(acts, i, j);
    }
    assert forall|i: int| 0 <= i < acts.len() implies (#[trigger] acts[i] is CommitMove ==> moving) by {
        if i > 0 {
            assert(linked(acts[i - 1], events[i - 1], acts[(i - 1) + 1], areas, moving));
        }
    }
}

proof fn lemma_ranks_climb(acts: Seq<TransferAction>, i: int, j: int)
    requires
        0 <= i <= j < acts.len(),
        forall|k: int| 0 <= k < acts.len() - 1 ==> action_rank(#[trigger] acts[k]) <= action_rank(acts[k + 1]),
    ensures
        action_rank(acts[i]) <= action_rank(acts[j]),
    decreases j - i,
{
    if i < j {
        lemma_ranks_climb(acts, i, j - 1);
        assert(action_rank(acts[j - 1]) <= action_rank(acts[(j - 1) + 1]));
    }
}

} // verus!
