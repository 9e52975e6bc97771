//! The resident device's personal sync surface: the public, read-only cards
//! it adds to the admitted device surface, and the check that its transport
//! speaks as the device it addresses itself as.

use vstd::prelude::*;

use crate::availability::{holds, statements_about, BlobAvailability};
use crate::graph_keys::{prekey_views, recipient_for_root, root_for_recipient, root_of, seat_of};
use crate::hexcode::{hex, hex_bytes, short_hex};
use crate::json::{decimal, push_decimal};
use crate::personal_sync::{uuid_hyphenated, uuid_text};
use crate::session_item::{CardValue, PortableCard};
use crate::sorted::{compare_ids, id_views, insert_sorted_string, lists_id, string_views, strictly_sorted};
use crate::text::{push_str, str_eq};

verus! {

/// At most this many graph nodes get a card of their own.
pub const MAX_NODE_CARDS: usize = 128;

/// A card added to the device surface, with the adapter that speaks for it
/// and the id of what it shows.
#[derive(Clone, Debug, PartialEq, Eq)]
pub struct SupplementalCard {
    pub adapter: String,
    pub source_id: String,
    pub card: PortableCard,
    /// What a person can do from the card; only a waiting transfer offers
    /// anything.
    pub actions: Vec<CardAction>,
}

/// An action a card advertises: accepting one waiting transfer, through a
/// form with one field whose only choice is that transfer.
#[derive(Clone, Debug, PartialEq, Eq)]
pub struct CardAction {
    /// The intent the action carries out, and the schema of its payload.
    pub intent: String,
    pub schema: String,
    pub label: String,
    /// Only the native identity UI may carry it out.
    pub native_only: bool,
    pub field: String,
    pub field_label: String,
    pub description: String,
    /// The one advertised choice: the transfer's id, and what it carries.
    pub choice_value: String,
    pub choice_label: String,
    /// The schema of the action's input form: the payload's own.
    pub form_schema: String,
}

/// The names a transfer-accept action is advertised under: the identity
/// surface's accept intent and the schema of its payload.
#[derive(Clone, Debug, PartialEq, Eq)]
pub struct AcceptNames {
    pub intent: String,
    pub schema: String,
}

/// `items` joined with `sep` between each two.
pub open spec fn joined(items: Seq<Seq<char>>, sep: Seq<char>) -> Seq<char>
    decreases items.len(),
{
    if items.len() == 0 {
        Seq::empty()
    } else if items.len() == 1 {
        items[0]
    } else {
        joined(items.drop_last(), sep) + sep + items.last()
    }
}

fn join(items: &Vec<String>, sep: &str) -> (r: String)
    ensures
        r@ == joined(string_views(items@), sep@),
{
    let ghost v = string_views(items@);
    let mut out = String::new();
    let mut i: usize = 0;
    assert(joined(v.subrange(0, 0), sep@) =~= Seq::<char>::empty());
    while i < items.len()
        invariant
            i <= items@.len(),
            v == string_views(items@),
            out@ == joined(v.subrange(0, i as int), sep@),
        decreases items@.len() - i,
    {
        proof {
            assert(v.subrange(0, i + 1).drop_last() =~= v.subrange(0, i as int));
            assert(v.subrange(0, i + 1).last() == items@[i as int]@);
        }
        if i > 0 {
            push_str(&mut out, sep);
        } else {
            assert(out@ =~= Seq::<char>::empty());
        }
        push_str(&mut out, items[i].as_str());
        i = i + 1;
    }
    assert(v.subrange(0, v.len() as int) =~= v);
    out
}

/// Whether `v` reads `label: value`.
pub open spec fn shows(v: CardValue, label: Seq<char>, value: Seq<char>) -> bool {
    v.label@ == label && v.value@ == value
}

fn value(label: &str, text: String) -> (r: CardValue)
    ensures
        shows(r, label@, text@),
{
    CardValue { label: label.to_owned(), value: text }
}

fn count_text(n: usize) -> (r: String)
    ensures
        r@ == decimal(n as nat),
{
    let mut s = String::new();
    push_decimal(&mut s, n as u64);
    s
}

/// What the sync summary card counts.
#[derive(Clone, Copy, Debug, PartialEq, Eq)]
pub struct SyncCounts {
    pub nodes: usize,
    pub relations: usize,
    pub access_records: usize,
    pub blob_observations: usize,
    pub conflicts: usize,
    pub pending: usize,
}

/// Whether `r` is the personal graph's summary card.
pub open spec fn is_summary_card(graph: Seq<u8>, counts: SyncCounts, r: SupplementalCard) -> bool {
    &&& r.adapter@ == "graphshell.personal-sync"@
    &&& r.source_id@ == hex_bytes(graph)
    &&& r.card.title@ == "Personal graph sync"@
    &&& r.card.values@.len() == 7
    &&& shows(r.card.values@[0], "Graph"@, hex_bytes(graph))
    &&& shows(r.card.values@[1], "Nodes"@, decimal(counts.nodes as nat))
    &&& shows(r.card.values@[2], "Relations"@, decimal(counts.relations as nat))
    &&& shows(r.card.values@[3], "Access records"@, decimal(counts.access_records as nat))
    &&& shows(r.card.values@[4], "Blob observations"@, decimal(counts.blob_observations as nat))
    &&& shows(r.card.values@[5], "Conflicts"@, decimal(counts.conflicts as nat))
    &&& shows(r.card.values@[6], "Pending history"@, decimal(counts.pending as nat))
    &&& string_views(r.card.badges@) == seq!["Durable"@, "Personae admitted"@]
    &&& r.actions@.len() == 0
}

/// The personal graph's summary card: the graph's id and how much the
/// projection holds.
pub fn summary_card(graph: &[u8; 32], counts: &SyncCounts) -> (r: SupplementalCard)
    ensures
        is_summary_card(graph@, *counts, r),
{
    let mut values: Vec<CardValue> = Vec::new();
    values.push(value("Graph", hex(graph)));
    values.push(value("Nodes", count_text(counts.nodes)));
    values.push(value("Relations", count_text(counts.relations)));
    values.push(value("Access records", count_text(counts.access_records)));
    values.push(value("Blob observations", count_text(counts.blob_observations)));
    values.push(value("Conflicts", count_text(counts.conflicts)));
    values.push(value("Pending history", count_text(counts.pending)));
    let mut badges: Vec<String> = Vec::new();
    badges.push("Durable".to_owned());
    badges.push("Personae admitted".to_owned());
    assert(string_views(badges@) =~= seq!["Durable"@, "Personae admitted"@]);
    SupplementalCard {
        adapter: "graphshell.personal-sync".to_owned(),
        source_id: hex(graph),
        card: PortableCard { title: "Personal graph sync".to_owned(), values, badges },
        actions: Vec::new(),
    }
}

/// Whether `r` shows a synced graph node: its title (its address when
/// untitled), its address, and its tags in ascending order (`none` when it
/// has none). What it offers to do is not part of this.
pub open spec fn is_plain_node_card(
    id: u128,
    title: Seq<char>,
    address: Seq<char>,
    tags: Seq<Seq<char>>,
    r: SupplementalCard,
) -> bool {
    &&& r.adapter@ == "mere.graph"@
    &&& r.source_id@ == uuid_hyphenated(id)
    &&& r.card.title@ == if title.len() == 0 {
        address
    } else {
        title
    }
    &&& r.card.values@.len() == 2
    &&& shows(r.card.values@[0], "Address"@, address)
    &&& r.card.values@[1].label@ == "Tags"@
    &&& tags.len() == 0 ==> r.card.values@[1].value@ == "none"@
    &&& tags.len() > 0 ==> exists|sorted: Seq<Seq<char>>|
        strictly_sorted(sorted) && sorted.to_set() == tags.to_set() && r.card.values@[1].value@
            == joined(sorted, ", "@)
    &&& string_views(r.card.badges@) == seq!["Synced graph node"@]
}

/// A synced graph node's card: its title (its address when untitled), its
/// address, and its tags in ascending order (`none` when it has none).
pub fn node_card(id: u128, title: &str, address: &str, tags: &Vec<String>) -> (r: SupplementalCard)
    ensures
        is_plain_node_card(id, title@, address@, string_views(tags@), r),
        r.actions@.len() == 0,
{
    let title_chars = crate::text::chars_of(title);
    let shown = if title_chars.len() == 0 {
        address.to_owned()
    } else {
        title.to_owned()
    };
    let tag_text = if tags.len() == 0 {
        "none".to_owned()
    } else {
        let mut sorted: Vec<String> = Vec::new();
        let mut i: usize = 0;
        assert(string_views(sorted@).to_set() =~= string_views(tags@.subrange(0, 0)).to_set());
        while i < tags.len()
            invariant
                i <= tags@.len(),
                strictly_sorted(string_views(sorted@)),
                string_views(sorted@).to_set() == string_views(tags@.subrange(0, i as int)).to_set(),
            decreases tags@.len() - i,
        {
            insert_sorted_string(&mut sorted, tags[i].clone());
            proof {
                assert(string_views(tags@.subrange(0, i + 1)) =~= string_views(
                    tags@.subrange(0, i as int),
                ).push(tags@[i as int]@));
                string_views(tags@.subrange(0, i as int)).lemma_push_to_set_commute(
                    tags@[i as int]@,
                );
            }
            i = i + 1;
        }
        assert(tags@.subrange(0, tags@.len() as int) =~= tags@);
        join(&sorted, ", ")
    };
    let mut values: Vec<CardValue> = Vec::new();
    values.push(value("Address", address.to_owned()));
    values.push(value("Tags", tag_text));
    let mut badges: Vec<String> = Vec::new();
    badges.push("Synced graph node".to_owned());
    assert(string_views(badges@) =~= seq!["Synced graph node"@]);
    SupplementalCard {
        adapter: "mere.graph".to_owned(),
        source_id: uuid_text(id),
        card: PortableCard { title: shown, values, badges },
        actions: Vec::new(),
    }
}

/// Whether `r` is the card of the held blob `blob`: which devices hold it,
/// in ascending order, and how many statements name it.
pub open spec fn is_blob_card(ledger: BlobAvailability, blob: Seq<u8>, r: SupplementalCard) -> bool {
    &&& r.adapter@ == "graphshell.blob-availability"@
    &&& r.source_id@ == hex_bytes(blob)
    &&& r.card.title@ == "Blob "@ + hex_bytes(blob).subrange(0, 12)
    &&& r.card.values@.len() == 2
    &&& r.card.values@[0].label@ == "Available on"@
    &&& exists|devices: Seq<Seq<char>>|
        strictly_sorted(devices) && devices.to_set() == Set::new(
            |d: Seq<char>| holds(ledger.view_seq(), blob, d),
        ) && r.card.values@[0].value@ == joined(devices, ", "@)
    &&& shows(r.card.values@[1], "Observations"@, decimal(statements_about(ledger.view_seq(), blob)))
    &&& string_views(r.card.badges@) == seq!["Availability only"@, "Bytes stay out of graph sync"@]
    &&& r.actions@.len() == 0
}

/// A held blob's card: which devices hold it, in ascending order, and how
/// many statements name it. The bytes themselves never travel with the
/// graph.
pub fn blob_card(ledger: &BlobAvailability, blob: &[u8; 32]) -> (r: SupplementalCard)
    requires
        ledger.wf(),
    ensures
        is_blob_card(*ledger, blob@, r),
{
    let devices = ledger.holders_of(blob);
    let count = ledger.statement_count(blob);
    let mut title = "Blob ".to_owned();
    let head = short_hex(blob);
    push_str(&mut title, head.as_str());
    let mut values: Vec<CardValue> = Vec::new();
    values.push(value("Available on", join(&devices, ", ")));
    values.push(value("Observations", count_text(count)));
    let mut badges: Vec<String> = Vec::new();
    badges.push("Availability only".to_owned());
    badges.push("Bytes stay out of graph sync".to_owned());
    assert(string_views(badges@) =~= seq!["Availability only"@, "Bytes stay out of graph sync"@]);
    SupplementalCard {
        adapter: "graphshell.blob-availability".to_owned(),
        source_id: hex(blob),
        card: PortableCard { title, values, badges },
        actions: Vec::new(),
    }
}

/// One card per held blob, in ascending blob order.
pub fn blob_cards(ledger: &BlobAvailability) -> (r: Vec<SupplementalCard>)
    requires
        ledger.wf(),
    ensures
        exists|blobs: Seq<Seq<u8>>|
            crate::sorted::ids_sorted(blobs) && blobs.to_set() == Set::new(
                |b: Seq<u8>| exists|d: Seq<char>| holds(ledger.view_seq(), b, d),
            ) && r@.len() == blobs.len() && forall|i: int|
                0 <= i < blobs.len() ==> is_blob_card(*ledger, blobs[i], #[trigger] r@[i]),
{
    let blobs = ledger.available_blobs();
    let mut cards: Vec<SupplementalCard> = Vec::new();
    let mut i: usize = 0;
    while i < blobs.len()
        invariant
            i <= blobs@.len(),
            ledger.wf(),
            cards@.len() == i,
            forall|j: int| 0 <= j < i ==> is_blob_card(*ledger, blobs@[j]@, #[trigger] cards@[j]),
        decreases blobs@.len() - i,
    {
        cards.push(blob_card(ledger, &blobs[i]));
        i = i + 1;
    }
    proof {
        let v = id_views(blobs@);
        assert forall|j: int| 0 <= j < v.len() implies is_blob_card(*ledger, v[j], #[trigger] cards@[j]) by {
            assert(v[j] == blobs@[j]@);
        }
    }
    cards
}

/// One graph node as the device surface reads it: its id, title, address
/// and tags, and the receipt card its facets make when it records a run.
#[derive(Clone, Debug)]
pub struct NodeFacts {
    pub id: u128,
    pub title: String,
    pub address: String,
    pub tags: Vec<String>,
    pub receipt: Option<PortableCard>,
}

/// A transfer waiting on this device: its id, and how many objects and
/// blobs it carries.
#[derive(Clone, Copy, Debug, PartialEq, Eq)]
pub struct TransferOffer {
    pub transfer_id: u128,
    pub nodes: u64,
    pub blobs: u64,
}

/// The first waiting transfer with id `id`.
pub open spec fn first_offer(offers: Seq<TransferOffer>, id: u128) -> Option<TransferOffer>
    decreases offers.len(),
{
    if offers.len() == 0 {
        None
    } else if offers[0].transfer_id == id {
        Some(offers[0])
    } else {
        first_offer(offers.drop_first(), id)
    }
}

/// A card as its text reads.
pub open spec fn card_view(c: PortableCard) -> (Seq<char>, Seq<(Seq<char>, Seq<char>)>, Seq<Seq<char>>) {
    (c.title@, c.values@.map_values(|v: CardValue| (v.label@, v.value@)), string_views(c.badges@))
}

/// Whether `a` accepts the waiting transfer `o`: a native-only action
/// whose form's one field offers that transfer, and nothing else, as its
/// only choice.
pub open spec fn is_accept_action(o: TransferOffer, names: AcceptNames, a: CardAction) -> bool {
    &&& a.intent@ == names.intent@
    &&& a.schema@ == names.schema@
    &&& a.form_schema@ == names.schema@
    &&& a.label@ == "Accept transfer"@
    &&& a.native_only
    &&& a.field@ == "transfer_id"@
    &&& a.field_label@ == "Transfer"@
    &&& a.description@ == "Confirm which waiting transfer to bring onto this device."@
    &&& a.choice_value@ == uuid_hyphenated(o.transfer_id)
    &&& a.choice_label@ == decimal(o.nodes as nat) + " object(s), "@ + decimal(o.blobs as nat)
        + " blob(s)"@
}

/// Whether `r` is node `n`'s card: its receipt card when it records a run,
/// with nothing to act on; else its plain card, carrying the accept action
/// of the first waiting transfer that is this node, if any.
pub open spec fn is_node_entry(
    n: NodeFacts,
    offers: Seq<TransferOffer>,
    names: AcceptNames,
    r: SupplementalCard,
) -> bool {
    match n.receipt {
        Some(c) => {
            &&& r.adapter@ == "graphshell.receipt"@
            &&& r.source_id@ == uuid_hyphenated(n.id)
            &&& card_view(r.card) == card_view(c)
            &&& r.actions@.len() == 0
        },
        None => {
            &&& is_plain_node_card(n.id, n.title@, n.address@, string_views(n.tags@), r)
            &&& match first_offer(offers, n.id) {
                Some(o) => r.actions@.len() == 1 && is_accept_action(o, names, r.actions@[0]),
                None => r.actions@.len() == 0,
            }
        },
    }
}

/// `order` lists every position of `nodes` once, by ascending id, ties in
/// list order.
pub open spec fn by_id(nodes: Seq<NodeFacts>, order: Seq<int>) -> bool {
    &&& order.len() == nodes.len()
    &&& forall|k: int| 0 <= k < order.len() ==> 0 <= #[trigger] order[k] < nodes.len()
    &&& forall|k: int, l: int|
        0 <= k < l < order.len() ==> nodes[#[trigger] order[k]].id < nodes[#[trigger] order[l]].id || (
        nodes[order[k]].id == nodes[order[l]].id && order[k] < order[l])
}

fn clone_card(c: &PortableCard) -> (r: PortableCard)
    ensures
        card_view(r) == card_view(*c),
{
    let mut values: Vec<CardValue> = Vec::new();
    let mut i: usize = 0;
    while i < c.values.len()
        invariant
            i <= c.values@.len(),
            values@.len() == i,
            forall|k: int|
                0 <= k < i ==> (#[trigger] values@[k]).label@ == c.values@[k].label@ && values@[k].value@
                    == c.values@[k].value@,
        decreases c.values@.len() - i,
    {
        values.push(CardValue { label: c.values[i].label.clone(), value: c.values[i].value.clone() });
        i = i + 1;
    }
    let mut badges: Vec<String> = Vec::new();
    let mut j: usize = 0;
    while j < c.badges.len()
        invariant
            j <= c.badges@.len(),
            badges@.len() == j,
            forall|k: int| 0 <= k < j ==> (#[trigger] badges@[k])@ == c.badges@[k]@,
        decreases c.badges@.len() - j,
    {
        badges.push(c.badges[j].clone());
        j = j + 1;
    }
    let r = PortableCard { title: c.title.clone(), values, badges };
    assert(r.values@.map_values(|v: CardValue| (v.label@, v.value@)) =~= c.values@.map_values(
        |v: CardValue| (v.label@, v.value@),
    ));
    assert(string_views(r.badges@) =~= string_views(c.badges@));
    r
}

fn accept_action(o: &TransferOffer, names: &AcceptNames) -> (r: CardAction)
    ensures
        is_accept_action(*o, *names, r),
{
    let mut choice_label = String::new();
    push_decimal(&mut choice_label, o.nodes);
    push_str(&mut choice_label, " object(s), ");
    push_decimal(&mut choice_label, o.blobs);
    push_str(&mut choice_label, " blob(s)");
    CardAction {
        intent: names.intent.clone(),
        schema: names.schema.clone(),
        form_schema: names.schema.clone(),
        label: "Accept transfer".to_owned(),
        native_only: true,
        field: "transfer_id".to_owned(),
        field_label: "Transfer".to_owned(),
        description: "Confirm which waiting transfer to bring onto this device.".to_owned(),
        choice_value: uuid_text(o.transfer_id),
        choice_label,
    }
}

fn find_offer(offers: &Vec<TransferOffer>, id: u128) -> (r: Option<TransferOffer>)
    ensures
        r == first_offer(offers@, id),
{
    let mut i: usize = 0;
    assert(offers@.skip(0) =~= offers@);
    while i < offers.len()
        invariant
            i <= offers@.len(),
            first_offer(offers@, id) == first_offer(offers@.skip(i as int), id),
        decreases offers@.len() - i,
    {
        proof {
            assert(offers@.skip(i as int).drop_first() =~= offers@.skip(i + 1));
        }
        if offers[i].transfer_id == id {
            return Some(offers[i]);
        }
        i = i + 1;
    }
    None
}

fn node_entry(n: &NodeFacts, offers: &Vec<TransferOffer>, names: &AcceptNames) -> (r: SupplementalCard)
    ensures
        is_node_entry(*n, offers@, *names, r),
{
    match &n.receipt {
        Some(c) => SupplementalCard {
            adapter: "graphshell.receipt".to_owned(),
            source_id: uuid_text(n.id),
            card: clone_card(c),
            actions: Vec::new(),
        },
        None => {
            let mut card = node_card(n.id, n.title.as_str(), n.address.as_str(), &n.tags);
            match find_offer(offers, n.id) {
                Some(o) => {
                    card.actions.push(accept_action(&o, names));
                },
                None => {},
            }
            card
        },
    }
}

/// The order the device surface lists nodes in: by ascending id, ties in
/// list order.
fn order_by_id(nodes: &Vec<NodeFacts>) -> (r: Vec<usize>)
    ensures
        by_id(nodes@, r@.map_values(|k: usize| k as int)),
{
    let mut order: Vec<usize> = Vec::new();
    let mut i: usize = 0;
    while i < nodes.len()
        invariant
            i <= nodes@.len(),
            order@.len() == i,
            forall|k: int| 0 <= k < order@.len() ==> #[trigger] order@[k] < i,
            forall|k: int, l: int|
                0 <= k < l < order@.len() ==> nodes@[#[trigger] order@[k] as int].id < nodes@[#[trigger] order@[l] as int].id
                    || (nodes@[order@[k] as int].id == nodes@[order@[l] as int].id && order@[k] < order@[l]),
        decreases nodes@.len() - i,
    {
        let id = nodes[i].id;
        let mut p: usize = 0;
        while p < order.len() && nodes[order[p]].id <= id
            invariant
                p <= order@.len(),
                forall|k: int| 0 <= k < order@.len() ==> #[trigger] order@[k] < i,
                i < nodes@.len(),
                id == nodes@[i as int].id,
                forall|k: int| 0 <= k < p ==> nodes@[#[trigger] order@[k] as int].id <= id,
            decreases order@.len() - p,
        {
            p = p + 1;
        }
        let ghost before = order@;
        order.insert(p, i);
        proof {
            assert(order@ =~= before.insert(p as int, i));
            assert forall|k: int, l: int|
                0 <= k < l < order@.len() implies nodes@[#[trigger] order@[k] as int].id < nodes@[#[trigger] order@[l] as int].id
                    || (nodes@[order@[k] as int].id == nodes@[order@[l] as int].id && order@[k] < order@[l]) by {
                if l < p {
                    assert(order@[k] == before[k] && order@[l] == before[l]);
                } else if l == p {
                    assert(order@[k] == before[k]);
                } else if k < p {
                    assert(order@[k] == before[k] && order@[l] == before[l - 1]);
                    if p < before.len() {
                        assert(nodes@[before[p as int] as int].id > id);
                        if l - 1 > p {
                            assert(nodes@[before[p as int] as int].id < nodes@[before[l - 1] as int].id
                                || nodes@[before[p as int] as int].id == nodes@[before[l - 1] as int].id);
                        }
                    }
                } else if k == p {
                    assert(order@[l] == before[l - 1]);
                    assert(nodes@[before[p as int] as int].id > id);
                    if l - 1 > p {
                        assert(nodes@[before[p as int] as int].id < nodes@[before[l - 1] as int].id
                            || nodes@[before[p as int] as int].id == nodes@[before[l - 1] as int].id);
                    }
                } else {
                    assert(order@[k] == before[k - 1] && order@[l] == before[l - 1]);
                }
            }
        }
        i = i + 1;
    }
    let ghost o = order@.map_values(|k: usize| k as int);
    assert forall|k: int, l: int| 0 <= k < l < o.len() implies nodes@[#[trigger] o[k]].id < nodes@[#[trigger] o[l]].id || (
        nodes@[o[k]].id == nodes@[o[l]].id && o[k] < o[l]) by {
        assert(o[k] == order@[k] as int && o[l] == order@[l] as int);
    }
    assert forall|k: int| 0 <= k < o.len() implies 0 <= #[trigger] o[k] < nodes@.len() by {
        assert(o[k] == order@[k] as int);
    }
    order
}

/// The public, read-only cards a device adds to its admitted surface: the
/// sync summary first; then, for the first [`MAX_NODE_CARDS`] nodes by
/// id, each node's card (the receipt card of a node recording a run, else
/// its plain card, which alone can carry the accept action of the waiting
/// transfer that is that node, advertised under `accept`'s intent and
/// schema); then one card per held blob, in ascending blob order.
pub fn supplemental_cards(
    graph: &[u8; 32],
    counts: &SyncCounts,
    nodes: &Vec<NodeFacts>,
    offers: &Vec<TransferOffer>,
    accept: &AcceptNames,
    ledger: &BlobAvailability,
) -> (r: Vec<SupplementalCard>)
    requires
        ledger.wf(),
    ensures
        r@.len() >= 1,
        is_summary_card(graph@, *counts, r@[0]),
        exists|order: Seq<int>, blobs: Seq<Seq<u8>>|
            #![trigger by_id(nodes@, order), crate::sorted::ids_sorted(blobs)]
            {
            let m = if nodes@.len() < MAX_NODE_CARDS {
                nodes@.len() as int
            } else {
                MAX_NODE_CARDS as int
            };
            &&& by_id(nodes@, order)
            &&& crate::sorted::ids_sorted(blobs)
            &&& blobs.to_set() == Set::new(|b: Seq<u8>| exists|d: Seq<char>| holds(ledger.view_seq(), b, d))
            &&& r@.len() == 1 + m + blobs.len()
            &&& forall|k: int| 0 <= k < m ==> is_node_entry(nodes@[order[k]], offers@, *accept, #[trigger] r@[1 + k])
            &&& forall|i: int| 0 <= i < blobs.len() ==> is_blob_card(*ledger, blobs[i], #[trigger] r@[1 + m + i])
        },
{
    let mut cards: Vec<SupplementalCard> = Vec::new();
    cards.push(summary_card(graph, counts));
    let order = order_by_id(nodes);
    let ghost o = order@.map_values(|k: usize| k as int);
    let m: usize = if nodes.len() < MAX_NODE_CARDS {
        nodes.len()
    } else {
        MAX_NODE_CARDS
    };
    let mut k: usize = 0;
    while k < m
        invariant
            k <= m,
            m <= nodes@.len(),
            order@.len() == nodes@.len(),
            o == order@.map_values(|k: usize| k as int),
            by_id(nodes@, o),
            cards@.len() == 1 + k,
            is_summary_card(graph@, *counts, cards@[0]),
            forall|j: int| 0 <= j < k ==> is_node_entry(nodes@[o[j]], offers@, *accept, #[trigger] cards@[1 + j]),
        decreases m - k,
    {
        assert(o[k as int] == order@[k as int] as int);
        assert(0 <= o[k as int] < nodes@.len());
        let entry = node_entry(&nodes[order[k]], offers, accept);
        let ghost prev = cards@;
        cards.push(entry);
        proof {
            assert forall|j: int| 0 <= j < k + 1 implies is_node_entry(nodes@[o[j]], offers@, *accept, #[trigger] cards@[1 + j]) by {
                if j < k {
                    assert(cards@[1 + j] == prev[1 + j]);
                }
            }
        }
        k = k + 1;
    }
    let mut blob_list = blob_cards(ledger);
    let ghost before = cards@;
    let ghost bl = blob_list@;
    cards.append(&mut blob_list);
    proof {
        assert(cards@ =~= before + bl);
        let blobs = choose|blobs: Seq<Seq<u8>>|
            crate::sorted::ids_sorted(blobs) && blobs.to_set() == Set::new(
                |b: Seq<u8>| exists|d: Seq<char>| holds(ledger.view_seq(), b, d),
            ) && bl.len() == blobs.len() && forall|i: int|
                0 <= i < blobs.len() ==> is_blob_card(*ledger, blobs[i], #[trigger] bl[i]);
        assert forall|i: int| 0 <= i < blobs.len() implies is_blob_card(*ledger, blobs[i], #[trigger] cards@[1 + m + i]) by {
            assert(cards@[1 + m + i] == bl[i]);
        }
        assert forall|j: int| 0 <= j < m implies is_node_entry(nodes@[o[j]], offers@, *accept, #[trigger] cards@[1 + j]) by {
            assert(cards@[1 + j] == before[1 + j]);
        }
    }
    cards
}

/// What fetching a blob from a device comes to before any transfer.
#[derive(Debug, PartialEq, Eq)]
pub enum FetchStep {
    /// The bytes are already held here; only the lease is renewed.
    AlreadyHeld,
    /// Fetch from the device.
    Fetch,
    /// Refused, with the reason.
    Refuse(String),
}

/// Decide a fetch of a blob from `node`: nothing to fetch when the blob is
/// already held; otherwise only from a paired device, since reachability
/// is not authority and a blob hash names bytes rather than a right to
/// them.
pub fn fetch_step(held: bool, paired: bool, node: &[u8; 32]) -> (r: FetchStep)
    ensures
        held ==> r == FetchStep::AlreadyHeld,
        !held && paired ==> r == FetchStep::Fetch,
        !held && !paired ==> (r matches FetchStep::Refuse(m) && m@ == hex_bytes(node@).subrange(0, 12)
            + " is not a paired device of this graph"@),
{
    if held {
        FetchStep::AlreadyHeld
    } else if paired {
        FetchStep::Fetch
    } else {
        let mut m = short_hex(node);
        push_str(&mut m, " is not a paired device of this graph");
        FetchStep::Refuse(m)
    }
}

/// The transport must speak as the node id this device derived for itself:
/// offers are addressed to that id, so a mismatch would leave the inbox
/// silently empty. Refuse it, naming both.
pub fn check_bound_identity(bound: &[u8; 32], derived: &[u8; 32]) -> (r: Result<(), String>)
    ensures
        bound@ == derived@ ==> r is Ok,
        bound@ != derived@ ==> (r matches Err(m) && m@ == "transport bound as "@ + hex_bytes(bound@)
            + " but this device addresses itself as "@ + hex_bytes(derived@)),
{
    if crate::sorted::compare_ids(bound, derived) == 0 {
        return Ok(());
    }
    let mut m = "transport bound as ".to_owned();
    let b = hex(bound);
    push_str(&mut m, b.as_str());
    push_str(&mut m, " but this device addresses itself as ");
    let d = hex(derived);
    push_str(&mut m, d.as_str());
    Err(m)
}


/// A seat the graph still justifies: a pre-key accounts for it, and its
/// root still reads the graph.
pub open spec fn justified(p: Seq<(Seq<u8>, Seq<u8>)>, readers: Seq<Seq<u8>>, seat: Seq<u8>) -> bool {
    match root_of(p, seat) {
        Some(root) => readers.contains(root),
        None => false,
    }
}

/// Whether reconciliation leaves `seat` in place: this device's own seat,
/// or a justified one.
pub open spec fn stays(p: Seq<(Seq<u8>, Seq<u8>)>, readers: Seq<Seq<u8>>, mine: Seq<u8>, seat: Seq<u8>) -> bool {
    seat == mine || justified(p, readers, seat)
}

/// The seated members to remove, in seat order.
pub open spec fn removals(
    seated: Seq<Seq<u8>>,
    mine: Seq<u8>,
    p: Seq<(Seq<u8>, Seq<u8>)>,
    readers: Seq<Seq<u8>>,
) -> Seq<Seq<u8>>
    decreases seated.len(),
{
    if seated.len() == 0 {
        Seq::empty()
    } else {
        removals(seated.drop_last(), mine, p, readers) + if stays(p, readers, mine, seated.last()) {
            Seq::empty()
        } else {
            seq![seated.last()]
        }
    }
}

/// The seated members that stay, in seat order.
pub open spec fn kept(
    seated: Seq<Seq<u8>>,
    mine: Seq<u8>,
    p: Seq<(Seq<u8>, Seq<u8>)>,
    readers: Seq<Seq<u8>>,
) -> Seq<Seq<u8>>
    decreases seated.len(),
{
    if seated.len() == 0 {
        Seq::empty()
    } else {
        kept(seated.drop_last(), mine, p, readers) + if stays(p, readers, mine, seated.last()) {
            seq![seated.last()]
        } else {
            Seq::empty()
        }
    }
}

/// The seats to add, walking the readers in order from the membership
/// `present`: a reader whose latest pre-key publishes a seat, not this
/// device's and not yet present, is seated.
pub open spec fn additions_from(
    present: Seq<Seq<u8>>,
    rest: Seq<Seq<u8>>,
    mine: Seq<u8>,
    p: Seq<(Seq<u8>, Seq<u8>)>,
) -> Seq<Seq<u8>>
    decreases rest.len(),
{
    if rest.len() == 0 {
        Seq::empty()
    } else {
        match seat_of(p, rest[0]) {
            Some(s) => if s != mine && !present.contains(s) {
                seq![s] + additions_from(present.push(s), rest.drop_first(), mine, p)
            } else {
                additions_from(present, rest.drop_first(), mine, p)
            },
            None => additions_from(present, rest.drop_first(), mine, p),
        }
    }
}

/// The seats reconciliation adds to those that stay.
pub open spec fn additions(
    seated: Seq<Seq<u8>>,
    mine: Seq<u8>,
    p: Seq<(Seq<u8>, Seq<u8>)>,
    readers: Seq<Seq<u8>>,
) -> Seq<Seq<u8>> {
    additions_from(kept(seated, mine, p, readers), readers, mine, p)
}

/// What bringing the key group in line with the reader set changes.
#[derive(Debug, PartialEq, Eq)]
pub struct KeyPlan {
    /// Seats to remove (each removal also turns the epoch), in seat order.
    pub remove: Vec<[u8; 32]>,
    /// Seats to add, in reader order.
    pub add: Vec<[u8; 32]>,
}

/// Plan how to bring the key group in line with the reader set: remove
/// every seat other than this device's that no pre-key accounts for or
/// whose root no longer reads, then seat each reader whose latest pre-key
/// publishes a seat not yet present. `readers` are the reader roots in
/// ascending order; `prekeys` the decoded pre-keys in lane order.
pub fn plan_key_reconciliation(
    seated: &Vec<[u8; 32]>,
    mine: &[u8; 32],
    prekeys: &Vec<([u8; 32], [u8; 32])>,
    readers: &Vec<[u8; 32]>,
) -> (r: KeyPlan)
    ensures
        id_views(r.remove@) == removals(id_views(seated@), mine@, prekey_views(prekeys@), id_views(readers@)),
        id_views(r.add@) == additions(id_views(seated@), mine@, prekey_views(prekeys@), id_views(readers@)),
{
    let ghost p = prekey_views(prekeys@);
    let ghost rd = id_views(readers@);
    let ghost st = id_views(seated@);
    let mut remove: Vec<[u8; 32]> = Vec::new();
    let mut present: Vec<[u8; 32]> = Vec::new();
    let mut i: usize = 0;
    assert(st.subrange(0, 0) =~= Seq::<Seq<u8>>::empty());
    assert(id_views(remove@) =~= Seq::<Seq<u8>>::empty());
    assert(id_views(present@) =~= Seq::<Seq<u8>>::empty());
    while i < seated.len()
        invariant
            i <= seated@.len(),
            st == id_views(seated@),
            id_views(remove@) == removals(st.subrange(0, i as int), mine@, p, rd),
            id_views(present@) == kept(st.subrange(0, i as int), mine@, p, rd),
            p == prekey_views(prekeys@),
            rd == id_views(readers@),
        decreases seated@.len() - i,
    {
        let m = seated[i];
        proof {
            assert(st.subrange(0, i + 1).drop_last() =~= st.subrange(0, i as int));
            assert(st.subrange(0, i + 1).last() == m@);
        }
        let stay = if compare_ids(&m, mine) == 0 {
            true
        } else {
            match root_for_recipient(prekeys, &m) {
                Some(root) => lists_id(readers, &root),
                None => false,
            }
        };
        let ghost rb = id_views(remove@);
        let ghost pb = id_views(present@);
        if stay {
            present.push(m);
            proof {
                assert(id_views(present@) =~= pb + seq![m@]);
                assert(id_views(remove@) =~= rb + Seq::<Seq<u8>>::empty());
            }
        } else {
            remove.push(m);
            proof {
                assert(id_views(remove@) =~= rb + seq![m@]);
                assert(id_views(present@) =~= pb + Seq::<Seq<u8>>::empty());
            }
        }
        i = i + 1;
    }
    assert(st.subrange(0, st.len() as int) =~= st);
    let ghost base = id_views(present@);
    let mut add: Vec<[u8; 32]> = Vec::new();
    let mut j: usize = 0;
    assert(rd.subrange(0, rd.len() as int) =~= rd);
    assert(id_views(add@) =~= Seq::<Seq<u8>>::empty());
    while j < readers.len()
        invariant
            j <= readers@.len(),
            rd == id_views(readers@),
            p == prekey_views(prekeys@),
            base == kept(st, mine@, p, rd),
            id_views(present@) == base + id_views(add@),
            id_views(add@) + additions_from(id_views(present@), rd.subrange(j as int, rd.len() as int), mine@, p)
                == additions_from(base, rd, mine@, p),
        decreases readers@.len() - j,
    {
        let ghost rest = rd.subrange(j as int, rd.len() as int);
        proof {
            assert(rest[0] == readers@[j as int]@);
            assert(rest.drop_first() =~= rd.subrange(j + 1, rd.len() as int));
        }
        let ghost before_add = id_views(add@);
        let ghost before_present = id_views(present@);
        match recipient_for_root(prekeys, &readers[j]) {
            Some(s) => {
                if compare_ids(&s, mine) != 0 && !lists_id(&present, &s) {
                    add.push(s);
                    present.push(s);
                    proof {
                        assert(id_views(add@) =~= before_add.push(s@));
                        assert(id_views(present@) =~= before_present.push(s@));
                        assert(id_views(add@) + additions_from(id_views(present@), rest.drop_first(), mine@, p)
                            =~= before_add + (seq![s@] + additions_from(before_present.push(s@), rest.drop_first(), mine@, p)));
                    }
                }
            },
            None => {},
        }
        j = j + 1;
    }
    proof {
        assert(rd.subrange(rd.len() as int, rd.len() as int) =~= Seq::<Seq<u8>>::empty());
        assert(id_views(add@) =~= id_views(add@) + Seq::<Seq<u8>>::empty());
    }
    KeyPlan { remove, add }
}

/// Whatever `seat_of` finds is a pre-key on the lane.
proof fn lemma_seat_of_found(p: Seq<(Seq<u8>, Seq<u8>)>, root: Seq<u8>)
    ensures
        seat_of(p, root) matches Some(s) ==> exists|i: int| 0 <= i < p.len() && #[trigger] p[i] == (root, s),
    decreases p.len(),
{
    if p.len() > 0 && p.last().0 != root {
        lemma_seat_of_found(p.drop_last(), root);
        if let Some(s) = seat_of(p.drop_last(), root) {
            let i = choose|i: int| 0 <= i < p.drop_last().len() && #[trigger] p.drop_last()[i] == (root, s);
            assert(p[i] == (root, s));
        }
    } else if p.len() > 0 {
        assert(p[p.len() - 1] == (root, p.last().1));
    }
}

/// A seat with any pre-key on the lane has a root, and it is the root of
/// one of that seat's pre-keys.
proof fn lemma_root_of_found(p: Seq<(Seq<u8>, Seq<u8>)>, seat: Seq<u8>, k: int)
    requires
        0 <= k < p.len(),
        p[k].1 == seat,
    ensures
        root_of(p, seat) matches Some(r) && exists|i: int| 0 <= i < p.len() && #[trigger] p[i] == (r, seat),
    decreases p.len(),
{
    if p.last().1 == seat {
        assert(p[p.len() - 1] == (p.last().0, seat));
    } else {
        assert(k < p.len() - 1);
        assert(p.drop_last()[k] == p[k]);
        lemma_root_of_found(p.drop_last(), seat, k);
        let r = root_of(p.drop_last(), seat)->Some_0;
        let i = choose|i: int| 0 <= i < p.drop_last().len() && #[trigger] p.drop_last()[i] == (r, seat);
        assert(p[i] == (r, seat));
    }
}

/// The lane's pre-keys pair roots and seats one to one: two pre-keys share
/// a root exactly when they share a seat.
pub open spec fn one_to_one(p: Seq<(Seq<u8>, Seq<u8>)>) -> bool {
    forall|i: int, j: int|
        0 <= i < p.len() && 0 <= j < p.len() ==> ((#[trigger] p[i]).0 == (#[trigger] p[j]).0 <==> p[i].1
            == p[j].1)
}

/// On a one-to-one lane, the seat a reader's pre-key publishes is justified
/// by that reader.
proof fn lemma_published_seat_justified(p: Seq<(Seq<u8>, Seq<u8>)>, readers: Seq<Seq<u8>>, root: Seq<u8>)
    requires
        one_to_one(p),
        readers.contains(root),
        seat_of(p, root) is Some,
    ensures
        justified(p, readers, seat_of(p, root)->Some_0),
{
    let s = seat_of(p, root)->Some_0;
    lemma_seat_of_found(p, root);
    let i = choose|i: int| 0 <= i < p.len() && #[trigger] p[i] == (root, s);
    lemma_root_of_found(p, s, i);
    let r = root_of(p, s)->Some_0;
    let j = choose|j: int| 0 <= j < p.len() && #[trigger] p[j] == (r, s);
    assert(p[i].1 == p[j].1);
}

proof fn lemma_removals_empty(seated: Seq<Seq<u8>>, mine: Seq<u8>, p: Seq<(Seq<u8>, Seq<u8>)>, readers: Seq<Seq<u8>>)
    requires
        forall|k: int| 0 <= k < seated.len() ==> stays(p, readers, mine, #[trigger] seated[k]),
    ensures
        removals(seated, mine, p, readers) == Seq::<Seq<u8>>::empty(),
        kept(seated, mine, p, readers) == seated,
    decreases seated.len(),
{
    if seated.len() > 0 {
        let t = seated.drop_last();
        assert forall|k: int| 0 <= k < t.len() implies stays(p, readers, mine, #[trigger] t[k]) by {
            assert(t[k] == seated[k]);
        }
        lemma_removals_empty(t, mine, p, readers);
        assert(stays(p, readers, mine, seated[seated.len() - 1]));
        assert(removals(seated, mine, p, readers) =~= Seq::<Seq<u8>>::empty());
        assert(kept(seated, mine, p, readers) =~= t + seq![seated.last()]);
        assert(seated =~= t + seq![seated.last()]);
    }
}

/// Everything `kept` keeps stays.
proof fn lemma_kept_stays(seated: Seq<Seq<u8>>, mine: Seq<u8>, p: Seq<(Seq<u8>, Seq<u8>)>, readers: Seq<Seq<u8>>)
    ensures
        forall|k: int|
            0 <= k < kept(seated, mine, p, readers).len() ==> stays(p, readers, mine, #[trigger] kept(seated, mine, p, readers)[k]),
    decreases seated.len(),
{
    if seated.len() > 0 {
        lemma_kept_stays(seated.drop_last(), mine, p, readers);
        let a = kept(seated.drop_last(), mine, p, readers);
        let b = kept(seated, mine, p, readers);
        assert forall|k: int| 0 <= k < b.len() implies stays(p, readers, mine, #[trigger] b[k]) by {
            if k < a.len() {
                assert(b[k] == a[k]);
            }
        }
    }
}

/// Whether the seat `root`'s latest pre-key publishes, if any, is this
/// device's or already in `present`.
pub open spec fn seat_present(p: Seq<(Seq<u8>, Seq<u8>)>, mine: Seq<u8>, present: Seq<Seq<u8>>, root: Seq<u8>) -> bool {
    match seat_of(p, root) {
        Some(s) => s == mine || present.contains(s),
        None => true,
    }
}

/// What `additions_from` adds are published seats of readers, and at the end
/// every reader's published seat (other than this device's) is present.
#[verifier::spinoff_prover]
proof fn lemma_additions_from(
    present: Seq<Seq<u8>>,
    rest: Seq<Seq<u8>>,
    mine: Seq<u8>,
    p: Seq<(Seq<u8>, Seq<u8>)>,
    readers: Seq<Seq<u8>>,
)
    requires
        forall|k: int| 0 <= k < rest.len() ==> readers.contains(#[trigger] rest[k]),
    ensures
        forall|k: int|
            0 <= k < additions_from(present, rest, mine, p).len() ==> exists|root: Seq<u8>|
                readers.contains(root) && seat_of(p, root) == Some(
                    #[trigger] additions_from(present, rest, mine, p)[k],
                ),
        forall|k: int|
            0 <= k < rest.len() ==> seat_present(
                p,
                mine,
                present + additions_from(present, rest, mine, p),
                #[trigger] rest[k],
            ),
    decreases rest.len(),
{
    if rest.len() > 0 {
        let t = rest.drop_first();
        assert forall|k: int| 0 <= k < t.len() implies readers.contains(#[trigger] t[k]) by {
            assert(t[k] == rest[k + 1]);
        }
        assert(readers.contains(rest[0]));
        match seat_of(p, rest[0]) {
            Some(s) => {
                if s != mine && !present.contains(s) {
                    let q = present.push(s);
                    lemma_additions_from(q, t, mine, p, readers);
                    let tail = additions_from(q, t, mine, p);
                    let all = additions_from(present, rest, mine, p);
                    assert(all == seq![s] + tail);
                    assert(present + all =~= q + tail);
                    assert forall|k: int| 0 <= k < all.len() implies exists|root: Seq<u8>|
                        readers.contains(root) && seat_of(p, root) == Some(#[trigger] all[k]) by {
                        if k == 0 {
                            assert(seat_of(p, rest[0]) == Some(all[0]));
                        } else {
                            assert(all[k] == tail[k - 1]);
                        }
                    }
                    assert forall|k: int| 0 <= k < rest.len() implies seat_present(p, mine, present + all, #[trigger] rest[k]) by {
                        if k == 0 {
                            assert((q + tail)[present.len() as int] == s);
                        } else {
                            assert(rest[k] == t[k - 1]);
                        }
                    }
                } else {
                    lemma_additions_from(present, t, mine, p, readers);
                    let all = additions_from(present, rest, mine, p);
                    assert forall|k: int| 0 <= k < rest.len() implies seat_present(p, mine, present + all, #[trigger] rest[k]) by {
                        if k == 0 {
                            if s != mine {
                                let w = choose|w: int| 0 <= w < present.len() && present[w] == s;
                                assert((present + all)[w] == s);
                            }
                        } else {
                            assert(rest[k] == t[k - 1]);
                        }
                    }
                }
            },
            None => {
                lemma_additions_from(present, t, mine, p, readers);
                let all = additions_from(present, rest, mine, p);
                assert forall|k: int| 0 <= k < rest.len() implies seat_present(p, mine, present + all, #[trigger] rest[k]) by {
                    if k > 0 {
                        assert(rest[k] == t[k - 1]);
                    }
                }
            },
        }
    }
}

/// When every reader's published seat is already present (or is this
/// device's), there is nothing to add.
proof fn lemma_additions_none(present: Seq<Seq<u8>>, rest: Seq<Seq<u8>>, mine: Seq<u8>, p: Seq<(Seq<u8>, Seq<u8>)>)
    requires
        forall|k: int| 0 <= k < rest.len() ==> seat_present(p, mine, present, #[trigger] rest[k]),
    ensures
        additions_from(present, rest, mine, p) == Seq::<Seq<u8>>::empty(),
    decreases rest.len(),
{
    if rest.len() > 0 {
        let t = rest.drop_first();
        assert forall|k: int| 0 <= k < t.len() implies seat_present(p, mine, present, #[trigger] t[k]) by {
            assert(t[k] == rest[k + 1]);
        }
        lemma_additions_none(present, t, mine, p);
    }
}

/// Reconciliation is idempotent: once the seats it plans to remove are gone
/// and the seats it plans to add are seated, planning again changes nothing.
/// This holds on a lane whose pre-keys pair roots and seats one to one.
pub proof fn lemma_reconciliation_is_idempotent(
    seated: Seq<Seq<u8>>,
    mine: Seq<u8>,
    p: Seq<(Seq<u8>, Seq<u8>)>,
    readers: Seq<Seq<u8>>,
)
    requires
        one_to_one(p),
    ensures
        ({
            let after = kept(seated, mine, p, readers) + additions(seated, mine, p, readers);
            &&& removals(after, mine, p, readers) == Seq::<Seq<u8>>::empty()
            &&& additions(after, mine, p, readers) == Seq::<Seq<u8>>::empty()
        }),
{
    let k0 = kept(seated, mine, p, readers);
    let adds = additions(seated, mine, p, readers);
    let after = k0 + adds;
    lemma_kept_stays(seated, mine, p, readers);
    assert forall|k: int| 0 <= k < readers.len() implies readers.contains(#[trigger] readers[k]) by {}
    lemma_additions_from(k0, readers, mine, p, readers);
    assert forall|k: int| 0 <= k < after.len() implies stays(p, readers, mine, #[trigger] after[k]) by {
        if k < k0.len() {
            assert(after[k] == k0[k]);
        } else {
            assert(after[k] == adds[k - k0.len()]);
            let root = choose|root: Seq<u8>| readers.contains(root) && seat_of(p, root) == Some(adds[k - k0.len()]);
            lemma_published_seat_justified(p, readers, root);
        }
    }
    lemma_removals_empty(after, mine, p, readers);
    lemma_additions_none(after, readers, mine, p);
}

} // verus!
