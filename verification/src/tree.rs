//! The directory tree of an NTFS volume, rebuilt from its MFT records.

use vstd::prelude::*;
use std::collections::HashMap;
use vstd::std_specs::iter::IteratorSpec;
use crate::attribute::{AttributeData, DataRun, NtfsAttribute};
use crate::device::{lemma_log_push, lemma_log_trans, log_extends, reads_since, BlockDevice, ByteSink};
use crate::error::{RecoveryError, Result};
use crate::binary_reader::utf16_units;
use crate::endian::le64;
use crate::mft::{
    file_name_choice, is_default_data, is_file_name_candidate, is_first, none_is, resident_bytes,
    MftRecord,
};
use crate::text::{
    chars_of, class_pred, dec_text, is_control_char, push_char, push_dec, push_str, trim_by,
    trim_class, trim_end_by, trim_start_by, utf16_lossy, CharClass,
};
use crate::vbr::NtfsVbr;

verus! {

broadcast use vstd::std_specs::hash::group_hash_axioms;

/// One file or directory of the volume.
#[derive(Debug, Clone)]
pub struct NtfsNode {
    pub record_number: u64,
    pub parent_record: u64,
    pub name: String,
    pub is_directory: bool,
    pub is_in_use: bool,
    pub file_size: u64,
    pub children: Vec<u64>,
}

/// The files and directories of a volume, keyed by MFT record number.
pub struct NtfsVolumeTree {
    pub vbr: NtfsVbr,
    pub partition_start_byte_offset: u64,
    pub nodes: HashMap<u64, NtfsNode>,
    pub records: HashMap<u64, MftRecord>,
}

/// The record number of the root directory.
pub const ROOT_DIRECTORY_RECORD: u64 = 5;

/// The characters a host file name may not hold: path separators, the characters Windows
/// reserves, NUL and control characters.
pub open spec fn reserved_char(c: char) -> bool {
    c == '/' || c == '\\' || c == ':' || c == '*' || c == '?' || c == '"' || c == '<' || c == '>'
        || c == '|' || c == '\0' || is_control_char(c)
}

/// A character that may stand in a file name on the host: reserved characters become `_`.
pub open spec fn safe_char(c: char) -> char {
    if reserved_char(c) {
        '_'
    } else {
        c
    }
}

/// A name made safe as one path component: reserved characters replaced, spaces and dots
/// trimmed at both ends, and `unnamed` if nothing is left.
pub open spec fn sanitized(name: Seq<char>) -> Seq<char> {
    let t = trim_by(name.map_values(|c: char| safe_char(c)), class_pred(CharClass::SpaceOrDot));
    if t.len() == 0 {
        "unnamed"@
    } else {
        t
    }
}

/// Trimming the start keeps a suffix: every character left was in the text.
proof fn lemma_trim_start_within(s: Seq<char>, p: spec_fn(char) -> bool)
    ensures
        forall|i: int|
            0 <= i < trim_start_by(s, p).len() ==> s.contains(#[trigger] trim_start_by(s, p)[i]),
        trim_start_by(s, p).len() > 0 ==> !p(trim_start_by(s, p)[0]),
    decreases s.len(),
{
    if s.len() > 0 && p(s[0]) {
        lemma_trim_start_within(s.drop_first(), p);
        let t = trim_start_by(s, p);
        assert forall|i: int| 0 <= i < t.len() implies s.contains(#[trigger] t[i]) by {
            let j = choose|j: int| 0 <= j < s.drop_first().len() && s.drop_first()[j] == t[i];
            assert(s[j + 1] == t[i]);
        }
    } else {
        let t = trim_start_by(s, p);
        assert forall|i: int| 0 <= i < t.len() implies s.contains(#[trigger] t[i]) by {
            assert(s[i] == t[i]);
        }
    }
}

/// Trimming the end keeps a prefix.
proof fn lemma_trim_end_prefix(s: Seq<char>, p: spec_fn(char) -> bool)
    ensures
        trim_end_by(s, p).len() <= s.len(),
        trim_end_by(s, p) == s.subrange(0, trim_end_by(s, p).len() as int),
        trim_end_by(s, p).len() > 0 ==> !p(trim_end_by(s, p).last()),
    decreases s.len(),
{
    if s.len() > 0 && p(s.last()) {
        lemma_trim_end_prefix(s.drop_last(), p);
        assert(s.drop_last().subrange(0, trim_end_by(s, p).len() as int) =~= s.subrange(
            0,
            trim_end_by(s, p).len() as int,
        ));
    } else {
        assert(s.subrange(0, s.len() as int) =~= s);
    }
}

/// A name made safe is never empty, holds no reserved character, and neither starts nor ends
/// with a space or a dot.
pub proof fn lemma_sanitized_is_safe(name: Seq<char>)
    ensures
        sanitized(name).len() > 0,
        forall|i: int| 0 <= i < sanitized(name).len() ==> !reserved_char(#[trigger] sanitized(name)[i]),
        sanitized(name)[0] != ' ' && sanitized(name)[0] != '.',
        sanitized(name).last() != ' ' && sanitized(name).last() != '.',
{
    let m = name.map_values(|c: char| safe_char(c));
    let p = class_pred(CharClass::SpaceOrDot);
    let a = trim_start_by(m, p);
    let t = trim_end_by(a, p);
    lemma_trim_start_within(m, p);
    lemma_trim_end_prefix(a, p);
    assert forall|i: int| 0 <= i < m.len() implies !reserved_char(#[trigger] m[i]) by {
        assert(m[i] == safe_char(name[i]));
    }
    if t.len() == 0 {
        reveal_strlit("unnamed");
        assert(sanitized(name) == "unnamed"@);
    } else {
        assert(sanitized(name) == t);
        assert forall|i: int| 0 <= i < t.len() implies !reserved_char(#[trigger] t[i]) by {
            assert(t[i] == a[i]);
            assert(m.contains(a[i]));
            let j = choose|j: int| 0 <= j < m.len() && m[j] == a[i];
            assert(!reserved_char(m[j]));
        }
        assert(t[0] == a[0]);
        assert(!p(a[0]));
        assert(!p(t.last()));
    }
}

fn safe_char_of(c: char) -> (r: char)
    ensures
        r == safe_char(c),
{
    let n = c as u32;
    if c == '/' || c == '\\' || c == ':' || c == '*' || c == '?' || c == '"' || c == '<' || c
        == '>' || c == '|' || c == '\0' || n <= 0x1F || (0x7F <= n && n <= 0x9F) {
        '_'
    } else {
        c
    }
}

/// Makes `name` safe to use as one component of a host path.
pub fn sanitize_component(name: &str) -> (r: String)
    ensures
        r@ == sanitized(name@),
{
    let cs = chars_of(name);
    let mut cleaned = String::new();
    let mut i: usize = 0;
    while i < cs.len()
        invariant
            i <= cs.len(),
            cs@ == name@,
            cleaned@ == name@.subrange(0, i as int).map_values(|c: char| safe_char(c)),
        decreases cs.len() - i,
    {
        let c = safe_char_of(cs[i]);
        push_char(&mut cleaned, c);
        proof {
            assert(name@.subrange(0, i + 1).map_values(|c: char| safe_char(c)) =~= name@.subrange(
                0,
                i as int,
            ).map_values(|c: char| safe_char(c)).push(safe_char(name@[i as int])));
        }
        i += 1;
    }
    proof {
        assert(name@.subrange(0, cs.len() as int) =~= name@);
    }
    let trimmed = trim_class(cleaned.as_str(), CharClass::SpaceOrDot);
    if trimmed.as_str().unicode_len() == 0 {
        let r = String::from_str("unnamed");
        proof {
            reveal_strlit("unnamed");
        }
        r
    } else {
        trimmed
    }
}

/// `Record_` followed by the record number, the name of a record without a file name.
pub open spec fn record_label(n: u64) -> Seq<char> {
    "Record_"@ + dec_text(n as nat)
}

/// Builds `Record_<n>`.
pub fn record_label_string(n: u64) -> (r: String)
    ensures
        r@ == record_label(n),
{
    let mut s = String::from_str("Record_");
    proof {
        reveal_strlit("Record_");
    }
    push_dec(&mut s, n);
    s
}

/// The flat name a file is extracted under when its folder path cannot be written:
/// `orphaned_rec_<n>_<name made safe>`.
pub open spec fn orphaned_name(n: u64, name: Seq<char>) -> Seq<char> {
    "orphaned_rec_"@ + dec_text(n as nat) + "_"@ + sanitized(name)
}

/// Builds `orphaned_rec_<n>_<name made safe>`.
pub fn orphaned_file_name(n: u64, name: &str) -> (r: String)
    ensures
        r@ == orphaned_name(n, name@),
{
    let mut s = String::from_str("orphaned_rec_");
    push_dec(&mut s, n);
    push_str(&mut s, "_");
    let safe = sanitize_component(name);
    push_str(&mut s, safe.as_str());
    s
}

/// The name a file is created under, one folder up, when its own path cannot be created:
/// `rec_<n>_<leaf name made safe>`.
pub open spec fn fallback_name(n: u64, leaf: Seq<char>) -> Seq<char> {
    "rec_"@ + dec_text(n as nat) + "_"@ + sanitized(leaf)
}

/// Builds `rec_<n>_<leaf name made safe>`.
pub fn fallback_file_name(n: u64, leaf: &str) -> (r: String)
    ensures
        r@ == fallback_name(n, leaf@),
{
    let mut s = String::from_str("rec_");
    push_dec(&mut s, n);
    push_str(&mut s, "_");
    let safe = sanitize_component(leaf);
    push_str(&mut s, safe.as_str());
    s
}

/// Builds the message for a record number that is not in the tree.
fn record_missing_string(rn: u64) -> (s: String)
    ensures
        s@ == record_missing_message(rn),
{
    let mut s = String::from_str("MFT Record #");
    proof {
        reveal_strlit("MFT Record #");
    }
    push_dec(&mut s, rn);
    push_str(&mut s, " not found");
    proof {
        reveal_strlit(" not found");
    }
    s
}

/// Builds the message for a record without an unnamed `$DATA` attribute.
fn no_data_string(rn: u64) -> (s: String)
    ensures
        s@ == no_data_message(rn),
{
    let mut s = String::from_str("No $DATA attribute found for record #");
    proof {
        reveal_strlit("No $DATA attribute found for record #");
    }
    push_dec(&mut s, rn);
    s
}

/// Whether extracting a file may be skipped because it is already there: a file of the
/// stream's size exists at the destination (a run that was stopped is resumed this way).
pub fn skip_existing(expected: u64, existing_len: Option<u64>) -> (r: bool)
    ensures
        r == (existing_len == Some(expected)),
{
    match existing_len {
        Some(n) => n == expected,
        None => false,
    }
}

/// The byte offset of cluster `base_lcn + c` of a partition starting at `start`, if it
/// fits in 64 bits.
fn cluster_offset(start: u64, base_lcn: u64, c: u64, bpc: u64) -> (r: Option<u64>)
    ensures
        r matches Some(o) ==> o == start + (base_lcn + c) * bpc,
        r is None <==> (base_lcn + c > u64::MAX || (base_lcn + c) * bpc > u64::MAX || start + (
        base_lcn + c) * bpc > u64::MAX),
{
    let lcn = base_lcn.checked_add(c)?;
    let rel = lcn.checked_mul(bpc)?;
    start.checked_add(rel)
}

/// The index of the attribute that holds a record's file name.
pub open spec fn name_index(attrs: Seq<NtfsAttribute>) -> int {
    choose|k: int| #[trigger] file_name_choice(attrs, k)
}

/// Index `k` holds the record's first unnamed `$DATA` attribute.
pub open spec fn is_first_data(attrs: Seq<NtfsAttribute>, k: int) -> bool {
    is_first(attrs, k, |a: NtfsAttribute| is_default_data(a))
}

/// The index of a record's unnamed `$DATA` attribute.
pub open spec fn data_index(attrs: Seq<NtfsAttribute>) -> int {
    choose|k: int| #[trigger] is_first_data(attrs, k)
}

/// Whether the record has a file name that decodes.
pub open spec fn has_file_name(attrs: Seq<NtfsAttribute>) -> bool {
    !none_is(attrs, |a: NtfsAttribute| is_file_name_candidate(a))
}

/// Whether the record has an unnamed `$DATA` attribute.
pub open spec fn has_default_data(attrs: Seq<NtfsAttribute>) -> bool {
    !none_is(attrs, |a: NtfsAttribute| is_default_data(a))
}

/// The size of the stream an attribute holds.
pub open spec fn stream_size(a: NtfsAttribute) -> u64 {
    match a.data {
        AttributeData::Resident(v) => v@.len() as u64,
        AttributeData::NonResident { real_size, .. } => real_size,
    }
}

/// The node the tree makes of a record, children aside.
pub open spec fn record_node(r: MftRecord, n: NtfsNode) -> bool {
    let attrs = r.attributes@;
    let d = resident_bytes(attrs[name_index(attrs)]);
    &&& n.record_number == r.record_number
    &&& n.parent_record == (if has_file_name(attrs) {
        le64(d, 0) & 0x0000_FFFF_FFFF_FFFF
    } else {
        ROOT_DIRECTORY_RECORD
    })
    &&& n.name@ == (if has_file_name(attrs) {
        utf16_lossy(utf16_units(d.subrange(66, 66 + 2 * d[64])))
    } else {
        record_label(r.record_number)
    })
    &&& n.is_directory == r.is_directory
    &&& n.is_in_use == r.is_in_use
    &&& n.file_size == (if has_default_data(attrs) {
        stream_size(attrs[data_index(attrs)])
    } else if has_file_name(attrs) {
        le64(d, 48)
    } else {
        0
    })
    &&& n.children@ == Seq::<u64>::empty()
}

proof fn lemma_first_unique(attrs: Seq<NtfsAttribute>, p: spec_fn(NtfsAttribute) -> bool, k1: int, k2: int)
    requires
        is_first(attrs, k1, p),
        is_first(attrs, k2, p),
    ensures
        k1 == k2,
{
    if k1 < k2 {
        assert(!p(attrs[k1]));
    } else if k2 < k1 {
        assert(!p(attrs[k2]));
    }
}

proof fn lemma_name_choice_unique(attrs: Seq<NtfsAttribute>, k1: int, k2: int)
    requires
        file_name_choice(attrs, k1),
        file_name_choice(attrs, k2),
    ensures
        k1 == k2,
{
    let pref = |a: NtfsAttribute| crate::mft::is_preferred_file_name(a);
    let cand = |a: NtfsAttribute| is_file_name_candidate(a);
    if is_first(attrs, k1, pref) && is_first(attrs, k2, pref) {
        lemma_first_unique(attrs, pref, k1, k2);
    } else if is_first(attrs, k1, cand) && is_first(attrs, k2, cand) && none_is(attrs, pref) {
        lemma_first_unique(attrs, cand, k1, k2);
    } else if is_first(attrs, k1, pref) {
        assert(!pref(attrs[k1]));
    } else {
        assert(!pref(attrs[k2]));
    }
}

/// Record `c` is a child of `p`: it names `p` as its parent and is not its own parent.
pub open spec fn is_child_of(nodes: Map<u64, NtfsNode>, c: u64, p: u64) -> bool {
    nodes.contains_key(c) && nodes[c].parent_record != c && nodes[c].parent_record == p
}

/// The children of `p` among the nodes.
pub open spec fn children_of(nodes: Map<u64, NtfsNode>, p: u64) -> Set<u64> {
    Set::new(|c: u64| is_child_of(nodes, c, p))
}

/// The children of `p` among `ks`, in the order of `ks`.
pub open spec fn kids_in(nodes: Map<u64, NtfsNode>, ks: Seq<u64>, p: u64) -> Seq<u64>
    decreases ks.len(),
{
    if ks.len() == 0 {
        Seq::empty()
    } else if is_child_of(nodes, ks.last(), p) {
        kids_in(nodes, ks.drop_last(), p).push(ks.last())
    } else {
        kids_in(nodes, ks.drop_last(), p)
    }
}

proof fn lemma_kids_in(nodes: Map<u64, NtfsNode>, ks: Seq<u64>, p: u64)
    requires
        ks.no_duplicates(),
    ensures
        kids_in(nodes, ks, p).no_duplicates(),
        forall|c: u64| kids_in(nodes, ks, p).contains(c) <==> (ks.contains(c) && is_child_of(nodes, c, p)),
    decreases ks.len(),
{
    if ks.len() > 0 {
        let init = ks.drop_last();
        assert(init.no_duplicates());
        lemma_kids_in(nodes, init, p);
        assert forall|c: u64| ks.contains(c) <==> (init.contains(c) || c == ks.last()) by {
            if ks.contains(c) {
                let j = choose|j: int| 0 <= j < ks.len() && #[trigger] ks[j] == c;
                if j < ks.len() - 1 {
                    assert(init[j] == c);
                }
            }
            if init.contains(c) {
                let j = choose|j: int| 0 <= j < init.len() && #[trigger] init[j] == c;
                assert(ks[j] == c);
            }
            if c == ks.last() {
                assert(ks[ks.len() - 1] == c);
            }
        }
        assert(!init.contains(ks.last())) by {
            if init.contains(ks.last()) {
                let j = choose|j: int| 0 <= j < init.len() && init[j] == ks.last();
                assert(ks[j] == ks[ks.len() - 1]);
            }
        }
        let r = kids_in(nodes, init, p);
        if is_child_of(nodes, ks.last(), p) {
            assert forall|c: u64| r.push(ks.last()).contains(c) <==> (r.contains(c) || c == ks.last()) by {
                if r.push(ks.last()).contains(c) {
                    let j = choose|j: int| 0 <= j < r.len() + 1 && #[trigger] r.push(ks.last())[j] == c;
                    if j < r.len() {
                        assert(r[j] == c);
                    }
                }
                if r.contains(c) {
                    let j = choose|j: int| 0 <= j < r.len() && #[trigger] r[j] == c;
                    assert(r.push(ks.last())[j] == c);
                }
                if c == ks.last() {
                    assert(r.push(ks.last())[r.len() as int] == c);
                }
            }
        }
    }
}

proof fn lemma_kids_in_take(nodes: Map<u64, NtfsNode>, ks: Seq<u64>, i: int, p: u64)
    requires
        0 <= i < ks.len(),
    ensures
        kids_in(nodes, ks.take(i + 1), p) == (if is_child_of(nodes, ks[i], p) {
            kids_in(nodes, ks.take(i), p).push(ks[i])
        } else {
            kids_in(nodes, ks.take(i), p)
        }),
{
    assert(ks.take(i + 1).drop_last() =~= ks.take(i));
}

proof fn lemma_kids_are_children(nodes: Map<u64, NtfsNode>, ks: Seq<u64>, p: u64)
    requires
        ks.to_set() == nodes.dom(),
        ks.no_duplicates(),
    ensures
        kids_in(nodes, ks, p).to_set() == children_of(nodes, p),
        kids_in(nodes, ks, p).no_duplicates(),
        kids_in(nodes, ks, p).len() > 0 <==> exists|c: u64| is_child_of(nodes, c, p),
{
    lemma_kids_in(nodes, ks, p);
    let kids = kids_in(nodes, ks, p);
    assert forall|c: u64| kids.to_set().contains(c) <==> children_of(nodes, p).contains(c) by {
        if is_child_of(nodes, c, p) {
            assert(ks.to_set().contains(c));
        }
    }
    assert(kids.to_set() =~= children_of(nodes, p));
    if kids.len() > 0 {
        assert(kids.contains(kids[0]));
        assert(is_child_of(nodes, kids[0], p));
    }
    if exists|c: u64| is_child_of(nodes, c, p) {
        let c = choose|c: u64| is_child_of(nodes, c, p);
        assert(ks.to_set().contains(c));
        assert(kids.contains(c));
    }
}

/// The node keeps everything but its children.
pub open spec fn same_but_children(n: NtfsNode, o: NtfsNode) -> bool {
    &&& n.record_number == o.record_number
    &&& n.parent_record == o.parent_record
    &&& n.name == o.name
    &&& n.is_directory == o.is_directory
    &&& n.is_in_use == o.is_in_use
    &&& n.file_size == o.file_size
}

/// What `build_hierarchy` makes of node `o` with record number `k` among `nodes`.
pub open spec fn linked_node(nodes: Map<u64, NtfsNode>, k: u64, o: NtfsNode, n: NtfsNode) -> bool {
    &&& same_but_children(n, o)
    &&& n.children@.to_set() == children_of(nodes, k)
    &&& n.children@.no_duplicates()
}

/// The records whose names make up the path of `cur`, leaf first: the walk up the parent
/// links stops at the root directory, at a record that is missing, at one that is its own
/// parent (kept), and at one already passed (dropped).
pub open spec fn path_records(
    nodes: Map<u64, NtfsNode>,
    cur: u64,
    visited: Set<u64>,
    fuel: nat,
) -> Seq<u64>
    decreases fuel,
{
    if fuel == 0 || !nodes.contains_key(cur) || visited.contains(cur) || cur
        == ROOT_DIRECTORY_RECORD {
        Seq::empty()
    } else if nodes[cur].parent_record == cur {
        seq![cur]
    } else {
        seq![cur] + path_records(nodes, nodes[cur].parent_record, visited.insert(cur), (fuel - 1) as nat)
    }
}

/// The records of a walk up the parent links are present and each one after the first is
/// the parent of the one before.
proof fn lemma_path_records_chain(nodes: Map<u64, NtfsNode>, cur: u64, visited: Set<u64>, fuel: nat)
    ensures
        ({
            let recs = path_records(nodes, cur, visited, fuel);
            &&& recs.len() > 0 ==> recs[0] == cur
            &&& forall|i: int| 0 <= i < recs.len() ==> nodes.contains_key(#[trigger] recs[i])
            &&& forall|i: int|
                0 <= i < recs.len() - 1 ==> #[trigger] recs[i + 1] == nodes[recs[i]].parent_record
        }),
    decreases fuel,
{
    if !(fuel == 0 || !nodes.contains_key(cur) || visited.contains(cur) || cur == ROOT_DIRECTORY_RECORD)
        && nodes[cur].parent_record != cur {
        let parent = nodes[cur].parent_record;
        lemma_path_records_chain(nodes, parent, visited.insert(cur), (fuel - 1) as nat);
        let tail = path_records(nodes, parent, visited.insert(cur), (fuel - 1) as nat);
        let recs = path_records(nodes, cur, visited, fuel);
        assert(recs == seq![cur] + tail);
        assert forall|i: int| 0 <= i < recs.len() implies nodes.contains_key(#[trigger] recs[i]) by {
            if i > 0 {
                assert(recs[i] == tail[i - 1]);
            }
        }
        assert forall|i: int| 0 <= i < recs.len() - 1 implies #[trigger] recs[i + 1] == nodes[recs[i]].parent_record by {
            assert(recs[i + 1] == tail[i]);
            if i > 0 {
                assert(recs[i] == tail[i - 1]);
                assert(tail[(i - 1) + 1] == nodes[tail[i - 1]].parent_record);
            } else {
                assert(tail.len() > 0);
                assert(tail[0] == parent);
            }
        }
    }
}

/// A walk up the parent links never passes the root directory, and stops only where the
/// parent of its last record is the root directory, is missing, is that record itself, or is
/// a record already passed (in `visited` or on the walk).
proof fn lemma_path_records_end(nodes: Map<u64, NtfsNode>, cur: u64, visited: Set<u64>, fuel: nat)
    requires
        nodes.dom().finite(),
        visited.subset_of(nodes.dom()),
        visited.len() + fuel >= nodes.dom().len(),
    ensures
        ({
            let recs = path_records(nodes, cur, visited, fuel);
            let p = nodes[recs.last()].parent_record;
            &&& forall|i: int| 0 <= i < recs.len() ==> #[trigger] recs[i] != ROOT_DIRECTORY_RECORD
            &&& recs.len() > 0 ==> (p == ROOT_DIRECTORY_RECORD || !nodes.contains_key(p)
                || visited.contains(p) || recs.contains(p))
        }),
    decreases fuel,
{
    let recs = path_records(nodes, cur, visited, fuel);
    vstd::set_lib::lemma_len_subset(visited, nodes.dom());
    if !(fuel == 0 || !nodes.contains_key(cur) || visited.contains(cur) || cur == ROOT_DIRECTORY_RECORD) {
        if nodes[cur].parent_record == cur {
            assert(recs == seq![cur]);
            assert(recs[0] == cur);
        } else {
            let parent = nodes[cur].parent_record;
            let v2 = visited.insert(cur);
            assert(v2.len() == visited.len() + 1);
            lemma_path_records_end(nodes, parent, v2, (fuel - 1) as nat);
            let tail = path_records(nodes, parent, v2, (fuel - 1) as nat);
            assert(recs == seq![cur] + tail);
            assert(recs[0] == cur);
            assert forall|i: int| 0 <= i < recs.len() implies #[trigger] recs[i] != ROOT_DIRECTORY_RECORD by {
                if i > 0 {
                    assert(recs[i] == tail[i - 1]);
                }
            }
            if tail.len() == 0 {
                assert(recs.last() == cur);
                if nodes.contains_key(parent) && parent != ROOT_DIRECTORY_RECORD && !v2.contains(parent) {
                    assert(fuel == 1);
                    v2.lemma_subset_not_in_lt(nodes.dom(), parent);
                }
            } else {
                let p = nodes[tail.last()].parent_record;
                assert(recs.last() == tail.last());
                if tail.contains(p) {
                    let i = choose|i: int| 0 <= i < tail.len() && tail[i] == p;
                    assert(recs[i + 1] == p);
                }
            }
        }
    }
}

/// The path of a record (other than the root directory) lists directories root first and
/// ends with the record's own name: there are records, one per component, whose sanitized
/// names the components are, the last being the record itself and each one the parent of
/// the next. None of them is the root directory, and the path reaches as high as the parent
/// links go: the first record's parent is the root directory, is missing, or is one of the
/// path's own records (a record that is its own parent, or a loop).
pub proof fn lemma_path_root_first(nodes: Map<u64, NtfsNode>, rn: u64)
    requires
        nodes.dom().finite(),
        nodes.contains_key(rn),
        rn != ROOT_DIRECTORY_RECORD,
    ensures
        path_of(nodes, rn).len() > 0,
        path_of(nodes, rn).last() == sanitized(nodes[rn].name@),
        exists|recs: Seq<u64>|
            {
                &&& recs.len() == path_of(nodes, rn).len()
                &&& recs.last() == rn
                &&& forall|i: int|
                    0 <= i < recs.len() ==> nodes.contains_key(#[trigger] recs[i])
                        && path_of(nodes, rn)[i] == sanitized(nodes[recs[i]].name@)
                &&& forall|i: int|
                    0 <= i < recs.len() - 1 ==> #[trigger] nodes[recs[i + 1]].parent_record == recs[i]
                &&& forall|i: int| 0 <= i < recs.len() ==> #[trigger] recs[i] != ROOT_DIRECTORY_RECORD
                &&& ({
                    let top = nodes[recs[0]].parent_record;
                    top == ROOT_DIRECTORY_RECORD || !nodes.contains_key(top) || recs.contains(top)
                })
            },
{
    let fuel = nodes.dom().len();
    assert(nodes.dom().contains(rn));
    vstd::set_lib::lemma_set_empty_equivalency_len(nodes.dom());
    assert(fuel > 0);
    let up = path_records(nodes, rn, Set::empty(), fuel);
    lemma_path_records_chain(nodes, rn, Set::empty(), fuel);
    lemma_path_records_end(nodes, rn, Set::empty(), fuel);
    assert(up.len() > 0);
    let n = up.len();
    let recs = Seq::new(n, |i: int| up[n - 1 - i]);
    let p = path_of(nodes, rn);
    assert(p.len() == n);
    assert(recs.last() == rn);
    assert forall|i: int| 0 <= i < recs.len() implies nodes.contains_key(#[trigger] recs[i])
        && p[i] == sanitized(nodes[recs[i]].name@) by {
        assert(recs[i] == up[n - 1 - i]);
    }
    assert forall|i: int| 0 <= i < recs.len() - 1 implies #[trigger] nodes[recs[i + 1]].parent_record == recs[i] by {
        assert(recs[i + 1] == up[n - 2 - i]);
        assert(recs[i] == up[(n - 2 - i) + 1]);
    }
    assert(p.last() == sanitized(nodes[rn].name@));
    assert forall|i: int| 0 <= i < recs.len() implies #[trigger] recs[i] != ROOT_DIRECTORY_RECORD by {
        assert(recs[i] == up[n - 1 - i]);
    }
    let top = nodes[recs[0]].parent_record;
    assert(recs[0] == up.last());
    if up.contains(top) {
        let j = choose|j: int| 0 <= j < up.len() && up[j] == top;
        assert(recs[n - 1 - j] == top);
    }
}

/// The path components of record `rn`, root first.
pub open spec fn path_of(nodes: Map<u64, NtfsNode>, rn: u64) -> Seq<Seq<char>> {
    let recs = path_records(nodes, rn, Set::empty(), nodes.dom().len());
    if recs.len() == 0 {
        seq![record_label(rn)]
    } else {
        Seq::new(recs.len(), |i: int| sanitized(nodes[recs[recs.len() - 1 - i]].name@))
    }
}

/// The record will be extracted: a file, not a metadata file (name starting with `$`), whose
/// record has an unnamed `$DATA` attribute.
pub open spec fn is_extractable(
    nodes: Map<u64, NtfsNode>,
    records: Map<u64, MftRecord>,
    id: u64,
) -> bool {
    &&& nodes.contains_key(id)
    &&& !nodes[id].is_directory
    &&& !(nodes[id].name@.len() > 0 && nodes[id].name@[0] == '$')
    &&& records.contains_key(id)
    &&& has_default_data(records[id].attributes@)
}

proof fn lemma_push_fresh(s: Seq<u64>, x: u64)
    requires
        s.no_duplicates(),
        !s.contains(x),
    ensures
        s.push(x).no_duplicates(),
{
    assert forall|i: int, j: int| 0 <= i < j < s.len() + 1 implies s.push(x)[i] != s.push(x)[j] by {
        if j == s.len() {
            assert(s[i] == s.push(x)[i]);
        }
    }
}

/// The total number of clusters of the runs.
pub open spec fn total_clusters(runs: Seq<DataRun>) -> int
    decreases runs.len(),
{
    if runs.len() == 0 {
        0
    } else {
        runs[0].length_clusters + total_clusters(runs.drop_first())
    }
}

/// The clusters of the first `r` runs.
pub open spec fn clusters_before(runs: Seq<DataRun>, r: int) -> int
    decreases r,
{
    if r <= 0 || runs.len() == 0 {
        0
    } else {
        runs[0].length_clusters + clusters_before(runs.drop_first(), r - 1)
    }
}

/// The absolute cluster number holding the `k`-th cluster of the stream: `None` for a
/// cluster of a sparse run.
pub open spec fn cluster_at(runs: Seq<DataRun>, k: int) -> Option<int>
    decreases runs.len(),
{
    if runs.len() == 0 {
        None
    } else if k < runs[0].length_clusters {
        match runs[0].lcn {
            Some(l) => Some(l + k),
            None => None,
        }
    } else {
        cluster_at(runs.drop_first(), k - runs[0].length_clusters)
    }
}

/// The number of bytes the `k`-th cluster contributes to a stream of `real_size` bytes.
pub open spec fn chunk_len(k: int, bpc: int, real_size: int) -> int {
    if real_size - k * bpc < bpc {
        real_size - k * bpc
    } else {
        bpc
    }
}

/// The number of bytes written for a non-resident stream.
pub open spec fn stream_len(runs: Seq<DataRun>, bpc: int, real_size: int) -> int {
    if total_clusters(runs) * bpc < real_size {
        total_clusters(runs) * bpc
    } else {
        real_size
    }
}

/// The first `k` clusters' bytes in `x`: for each cluster within the stream's size, the
/// stored bytes, or zeros where the run is sparse or the cluster could not be read.
pub open spec fn chunks_fit(
    x: Seq<u8>,
    k: int,
    runs: Seq<DataRun>,
    bpc: int,
    real_size: int,
    start: int,
    dev: Seq<u8>,
) -> bool {
    forall|j: int|
        0 <= j < k && j * bpc < real_size ==> {
            let seg = #[trigger] x.subrange(j * bpc, j * bpc + chunk_len(j, bpc, real_size));
            let zeros = Seq::new(chunk_len(j, bpc, real_size) as nat, |i: int| 0u8);
            match cluster_at(runs, j) {
                None => seg == zeros,
                Some(l) => seg == zeros || seg == dev.subrange(
                    start + l * bpc,
                    start + l * bpc + chunk_len(j, bpc, real_size),
                ),
            }
        }
}

/// `x` is what extraction writes for a non-resident stream: cluster after cluster, the
/// stored bytes, or zeros where the run is sparse or the cluster could not be read.
pub open spec fn stream_bytes_fit(
    x: Seq<u8>,
    runs: Seq<DataRun>,
    bpc: int,
    real_size: int,
    start: int,
    dev: Seq<u8>,
) -> bool {
    &&& x.len() == stream_len(runs, bpc, real_size)
    &&& chunks_fit(x, total_clusters(runs), runs, bpc, real_size, start, dev)
}

/// The bytes of the first `k` clusters of a stream of `real_size` bytes.
pub open spec fn written_upto(k: int, bpc: int, real_size: int) -> int {
    if k * bpc < real_size {
        k * bpc
    } else {
        real_size
    }
}

proof fn lemma_chunks_extend(
    x: Seq<u8>,
    y: Seq<u8>,
    k: int,
    runs: Seq<DataRun>,
    bpc: int,
    real_size: int,
    start: int,
    dev: Seq<u8>,
)
    requires
        k >= 0,
        bpc >= 0,
        x.len() == written_upto(k, bpc, real_size),
        chunks_fit(x, k, runs, bpc, real_size, start, dev),
    ensures
        chunks_fit(x + y, k, runs, bpc, real_size, start, dev),
{
    assert forall|j: int| 0 <= j < k && j * bpc < real_size implies
        #[trigger] (x + y).subrange(j * bpc, j * bpc + chunk_len(j, bpc, real_size))
        == x.subrange(j * bpc, j * bpc + chunk_len(j, bpc, real_size)) by {
        assert((j + 1) * bpc <= k * bpc) by (nonlinear_arith)
            requires j < k, bpc >= 0;
        assert((j + 1) * bpc == j * bpc + bpc) by (nonlinear_arith);
        assert((x + y).subrange(j * bpc, j * bpc + chunk_len(j, bpc, real_size)) =~= x.subrange(
            j * bpc,
            j * bpc + chunk_len(j, bpc, real_size),
        ));
    }
}

/// The byte offset on the device of the `j`-th cluster of a stream on a partition that starts
/// at byte `start`: `None` for a cluster of a sparse run, or one whose offset does not fit in
/// 64 bits.
pub open spec fn cluster_offset_of(runs: Seq<DataRun>, bpc: int, start: int, j: int) -> Option<int> {
    match cluster_at(runs, j) {
        Some(l) => if l <= u64::MAX && l * bpc <= u64::MAX && start + l * bpc <= u64::MAX {
            Some(start + l * bpc)
        } else {
            None
        },
        None => None,
    }
}

/// The number of device reads made for the clusters before the `j`-th: one for each cluster
/// that has an offset.
pub open spec fn reads_before(runs: Seq<DataRun>, bpc: int, start: int, j: int) -> int
    decreases j,
{
    if j <= 0 {
        0
    } else {
        reads_before(runs, bpc, start, j - 1) + if cluster_offset_of(runs, bpc, start, j - 1) is Some {
            1int
        } else {
            0int
        }
    }
}

/// The `j`-th cluster's bytes in `x` agree with the device reads `reads`: a cluster with an
/// offset was read, as read number `reads_before(j)`, whole and at that offset, and its bytes
/// are the stored ones when that read succeeded and zeros when it failed; a cluster without
/// an offset is zeros.
pub open spec fn cluster_read_fits(
    x: Seq<u8>,
    reads: Seq<(u64, nat, bool)>,
    j: int,
    runs: Seq<DataRun>,
    bpc: int,
    real_size: int,
    start: int,
    dev: Seq<u8>,
) -> bool {
    let len = chunk_len(j, bpc, real_size);
    let seg = x.subrange(j * bpc, j * bpc + len);
    let zeros = Seq::new(len as nat, |i: int| 0u8);
    match cluster_offset_of(runs, bpc, start, j) {
        None => seg == zeros,
        Some(o) => {
            let i = reads_before(runs, bpc, start, j);
            &&& 0 <= i < reads.len()
            &&& reads[i].0 == o
            &&& reads[i].1 == bpc
            &&& if reads[i].2 {
                seg == dev.subrange(o, o + len)
            } else {
                seg == zeros
            }
        },
    }
}

/// Each of the first `k` clusters within the stream's size agrees with the device reads.
pub open spec fn clusters_read_fit(
    x: Seq<u8>,
    reads: Seq<(u64, nat, bool)>,
    k: int,
    runs: Seq<DataRun>,
    bpc: int,
    real_size: int,
    start: int,
    dev: Seq<u8>,
) -> bool {
    forall|j: int|
        0 <= j < k && j * bpc < real_size ==> #[trigger] cluster_read_fits(
            x,
            reads,
            j,
            runs,
            bpc,
            real_size,
            start,
            dev,
        )
}

/// The number of clusters, from the `j`-th on, that extraction goes through before it has
/// the stream's `real_size` bytes or runs out of clusters: it ends at the first cluster that
/// starts at or past `real_size`, or at `total`.
pub open spec fn clusters_within(total: int, bpc: int, real_size: int, j: int) -> int
    decreases total - j,
{
    if j >= total || j * bpc >= real_size {
        j
    } else {
        clusters_within(total, bpc, real_size, j + 1)
    }
}

/// The `i`-th cluster starts within the stream's size.
pub open spec fn starts_within(i: int, bpc: int, real_size: int) -> bool {
    i * bpc < real_size
}

proof fn lemma_clusters_within(total: int, bpc: int, real_size: int, j: int, k: int)
    requires
        0 <= j <= k <= total,
        forall|i: int| j <= i < k ==> #[trigger] starts_within(i, bpc, real_size),
        k == total || k * bpc >= real_size,
    ensures
        clusters_within(total, bpc, real_size, j) == k,
    decreases k - j,
{
    if j < k {
        assert(starts_within(j, bpc, real_size));
        lemma_clusters_within(total, bpc, real_size, j + 1, k);
    }
}

proof fn lemma_reads_before_monotone(runs: Seq<DataRun>, bpc: int, start: int, a: int, b: int)
    requires
        0 <= a <= b,
    ensures
        0 <= reads_before(runs, bpc, start, a) <= reads_before(runs, bpc, start, b),
    decreases b,
{
    if a < b {
        lemma_reads_before_monotone(runs, bpc, start, a, b - 1);
    } else if a > 0 {
        lemma_reads_before_monotone(runs, bpc, start, a - 1, a - 1);
    }
}

proof fn lemma_clusters_read_extend(
    x: Seq<u8>,
    y: Seq<u8>,
    reads: Seq<(u64, nat, bool)>,
    more: Seq<(u64, nat, bool)>,
    k: int,
    runs: Seq<DataRun>,
    bpc: int,
    real_size: int,
    start: int,
    dev: Seq<u8>,
)
    requires
        k >= 0,
        bpc >= 0,
        x.len() == written_upto(k, bpc, real_size),
        reads.len() == reads_before(runs, bpc, start, k),
        clusters_read_fit(x, reads, k, runs, bpc, real_size, start, dev),
    ensures
        clusters_read_fit(x + y, reads + more, k, runs, bpc, real_size, start, dev),
{
    assert forall|j: int| 0 <= j < k && j * bpc < real_size implies #[trigger] cluster_read_fits(
        x + y,
        reads + more,
        j,
        runs,
        bpc,
        real_size,
        start,
        dev,
    ) by {
        assert(cluster_read_fits(x, reads, j, runs, bpc, real_size, start, dev));
        assert((j + 1) * bpc <= k * bpc) by (nonlinear_arith)
            requires j < k, bpc >= 0;
        assert((j + 1) * bpc == j * bpc + bpc) by (nonlinear_arith);
        let len = chunk_len(j, bpc, real_size);
        assert((x + y).subrange(j * bpc, j * bpc + len) =~= x.subrange(j * bpc, j * bpc + len));
        if cluster_offset_of(runs, bpc, start, j) is Some {
            lemma_reads_before_monotone(runs, bpc, start, j + 1, k);
            let i = reads_before(runs, bpc, start, j);
            assert((reads + more)[i] == reads[i]);
        }
    }
}

/// One more cluster: its bytes `chunk` follow those of the first `k`, and `more` holds the
/// read made for it, if any.
proof fn lemma_read_step(
    x: Seq<u8>,
    chunk: Seq<u8>,
    reads: Seq<(u64, nat, bool)>,
    entry: Option<(u64, nat, bool)>,
    k: int,
    runs: Seq<DataRun>,
    bpc: int,
    real_size: int,
    start: int,
    dev: Seq<u8>,
)
    requires
        k >= 0,
        bpc >= 0,
        k * bpc < real_size,
        x.len() == written_upto(k, bpc, real_size),
        reads.len() == reads_before(runs, bpc, start, k),
        clusters_read_fit(x, reads, k, runs, bpc, real_size, start, dev),
        chunk.len() == chunk_len(k, bpc, real_size),
        cluster_offset_of(runs, bpc, start, k) == match entry {
            Some(e) => Some(e.0 as int),
            None => None::<int>,
        },
        entry matches Some(e) ==> e.1 == bpc,
        entry matches Some(e) ==> (e.2 ==> chunk == dev.subrange(e.0 as int, e.0 + chunk.len())),
        !(entry matches Some(e) && e.2) ==> chunk == Seq::new(chunk.len(), |i: int| 0u8),
    ensures
        ({
            let more = match entry {
                Some(e) => seq![e],
                None => Seq::<(u64, nat, bool)>::empty(),
            };
            &&& clusters_read_fit(x + chunk, reads + more, k + 1, runs, bpc, real_size, start, dev)
            &&& (reads + more).len() == reads_before(runs, bpc, start, k + 1)
        }),
{
    let more = match entry {
        Some(e) => seq![e],
        None => Seq::<(u64, nat, bool)>::empty(),
    };
    let x1 = x + chunk;
    let reads1 = reads + more;
    lemma_clusters_read_extend(x, chunk, reads, more, k, runs, bpc, real_size, start, dev);
    assert(k * bpc == x.len());
    assert(x1.subrange(k * bpc, k * bpc + chunk.len()) =~= chunk);
    assert(cluster_read_fits(x1, reads1, k, runs, bpc, real_size, start, dev));
    assert forall|j: int| 0 <= j < k + 1 && j * bpc < real_size implies #[trigger] cluster_read_fits(
        x1,
        reads1,
        j,
        runs,
        bpc,
        real_size,
        start,
        dev,
    ) by {
        if j < k {
        }
    }
}

/// What extraction writes for each cluster of a non-resident stream, within the stream's
/// size: a cluster of a sparse run is zeros; a cluster stored at cluster `l` of the partition
/// that starts at byte `start` (where `start + l * bpc` fits in 64 bits) is read whole at
/// byte `start + l * bpc`, and its bytes are the device's bytes there when that read
/// succeeds, and zeros only when it fails.
pub proof fn lemma_extracted_cluster(
    x: Seq<u8>,
    reads: Seq<(u64, nat, bool)>,
    runs: Seq<DataRun>,
    bpc: int,
    real_size: int,
    start: int,
    dev: Seq<u8>,
    j: int,
)
    requires
        clusters_read_fit(x, reads, total_clusters(runs), runs, bpc, real_size, start, dev),
        0 <= j < total_clusters(runs),
        j * bpc < real_size,
    ensures
        ({
            let len = chunk_len(j, bpc, real_size);
            let seg = x.subrange(j * bpc, j * bpc + len);
            let zeros = Seq::new(len as nat, |i: int| 0u8);
            match cluster_at(runs, j) {
                None => seg == zeros,
                Some(l) => l <= u64::MAX && l * bpc <= u64::MAX && start + l * bpc <= u64::MAX ==> {
                    let rd = reads[reads_before(runs, bpc, start, j)];
                    &&& 0 <= reads_before(runs, bpc, start, j) < reads.len()
                    &&& rd.0 == start + l * bpc
                    &&& rd.1 == bpc
                    &&& rd.2 ==> seg == dev.subrange(start + l * bpc, start + l * bpc + len)
                    &&& !rd.2 ==> seg == zeros
                },
            }
        }),
{
    assert(cluster_read_fits(x, reads, j, runs, bpc, real_size, start, dev));
}

/// The message for a record number that is not in the tree.
pub open spec fn record_missing_message(rn: u64) -> Seq<char> {
    "MFT Record #"@ + dec_text(rn as nat) + " not found"@
}

/// The message for a record without an unnamed `$DATA` attribute.
pub open spec fn no_data_message(rn: u64) -> Seq<char> {
    "No $DATA attribute found for record #"@ + dec_text(rn as nat)
}

proof fn lemma_clusters_step(runs: Seq<DataRun>, r: int)
    requires
        0 <= r < runs.len(),
    ensures
        clusters_before(runs, r + 1) == clusters_before(runs, r) + runs[r].length_clusters,
    decreases r,
{
    let rest = runs.drop_first();
    if r > 0 {
        lemma_clusters_step(rest, r - 1);
        assert(rest[r - 1] == runs[r]);
    } else {
        assert(clusters_before(rest, 0) == 0);
    }
}

proof fn lemma_total_nonneg(runs: Seq<DataRun>)
    ensures
        total_clusters(runs) >= 0,
    decreases runs.len(),
{
    if runs.len() > 0 {
        lemma_total_nonneg(runs.drop_first());
    }
}

proof fn lemma_clusters_all(runs: Seq<DataRun>)
    ensures
        clusters_before(runs, runs.len() as int) == total_clusters(runs),
    decreases runs.len(),
{
    if runs.len() > 0 {
        lemma_clusters_all(runs.drop_first());
    }
}

proof fn lemma_cluster_at(runs: Seq<DataRun>, r: int, c: int)
    requires
        0 <= r < runs.len(),
        0 <= c < runs[r].length_clusters,
    ensures
        cluster_at(runs, clusters_before(runs, r) + c) == (match runs[r].lcn {
            Some(l) => Some(l + c),
            None => None::<int>,
        }),
    decreases r,
{
    if r > 0 {
        lemma_cluster_at(runs.drop_first(), r - 1, c);
        lemma_before_monotone(runs.drop_first(), r - 1);
        assert(runs.drop_first()[r - 1] == runs[r]);
    } else {
        assert(clusters_before(runs, 0) == 0);
    }
}

proof fn lemma_before_monotone(runs: Seq<DataRun>, r: int)
    requires
        0 <= r <= runs.len(),
    ensures
        0 <= clusters_before(runs, r) <= total_clusters(runs),
    decreases r,
{
    lemma_total_nonneg(runs);
    if r > 0 {
        lemma_before_monotone(runs.drop_first(), r - 1);
    }
}

impl NtfsVolumeTree {
    /// An empty tree for the volume whose boot sector is `vbr`.
    pub fn new(vbr: NtfsVbr, partition_start_byte_offset: u64) -> (t: Self)
        ensures
            t.vbr == vbr,
            t.partition_start_byte_offset == partition_start_byte_offset,
            t.nodes@ == Map::<u64, NtfsNode>::empty(),
            t.records@ == Map::<u64, MftRecord>::empty(),
    {
        NtfsVolumeTree {
            vbr,
            partition_start_byte_offset,
            nodes: HashMap::new(),
            records: HashMap::new(),
        }
    }

    /// Adds a parsed MFT record, and the node it gives, under its record number.
    pub fn add_record(&mut self, record: MftRecord)
        ensures
            final(self).vbr == old(self).vbr,
            final(self).partition_start_byte_offset == old(self).partition_start_byte_offset,
            final(self).records@ == old(self).records@.insert(record.record_number, record),
            final(self).nodes@.dom() == old(self).nodes@.dom().insert(record.record_number),
            record_node(record, final(self).nodes@[record.record_number]),
            forall|k: u64|
                k != record.record_number && old(self).nodes@.contains_key(k)
                    ==> final(self).nodes@[k] == old(self).nodes@[k],
    {
        let ghost attrs = record.attributes@;
        let fn_attr = record.file_name();
        proof {
            if fn_attr is Some {
                let k = choose|k: int|
                    file_name_choice(attrs, k) && crate::attribute::file_name_fields(
                        fn_attr->0,
                        resident_bytes(#[trigger] attrs[k]),
                    );
                lemma_name_choice_unique(attrs, k, name_index(attrs));
            }
        }
        let name = match &fn_attr {
            Some(f) => f.name.clone(),
            None => record_label_string(record.record_number),
        };
        let parent = match &fn_attr {
            Some(f) => f.parent_directory_record,
            None => ROOT_DIRECTORY_RECORD,
        };
        let size: u64 = match record.data_attribute() {
            Some(data) => {
                proof {
                    let k = choose|k: int|
                        is_first(attrs, k, |a: NtfsAttribute| is_default_data(a)) && *data
                            == #[trigger] attrs[k];
                    assert(is_first_data(attrs, k));
                    lemma_first_unique(
                        attrs,
                        |a: NtfsAttribute| is_default_data(a),
                        k,
                        data_index(attrs),
                    );
                }
                match &data.data {
                    AttributeData::Resident(b) => b.len() as u64,
                    AttributeData::NonResident { real_size, .. } => *real_size,
                }
            },
            None => match &fn_attr {
                Some(f) => f.real_size,
                None => 0,
            },
        };
        let node = NtfsNode {
            record_number: record.record_number,
            parent_record: parent,
            name,
            is_directory: record.is_directory,
            is_in_use: record.is_in_use,
            file_size: size,
            children: Vec::new(),
        };
        assert(record_node(record, node));
        let rn = record.record_number;
        self.nodes.insert(rn, node);
        self.records.insert(rn, record);
    }

    /// Links every node to its children: the records that name it as their parent, other
    /// than itself. Every node's list is rebuilt, so a node without children gets an empty
    /// one.
    pub fn build_hierarchy(&mut self)
        ensures
            final(self).vbr == old(self).vbr,
            final(self).partition_start_byte_offset == old(self).partition_start_byte_offset,
            final(self).records@ == old(self).records@,
            final(self).nodes@.dom() == old(self).nodes@.dom(),
            forall|k: u64|
                #[trigger] old(self).nodes@.contains_key(k) ==> linked_node(
                    old(self).nodes@,
                    k,
                    old(self).nodes@[k],
                    final(self).nodes@[k],
                ),
    {
        let ghost old_nodes = self.nodes@;
        let ks = self.node_keys();
        let mut groups: HashMap<u64, Vec<u64>> = HashMap::new();
        let mut i: usize = 0;
        while i < ks.len()
            invariant
                self.nodes@ == old_nodes,
                ks@.to_set() == old_nodes.dom(),
                ks@.no_duplicates(),
                i <= ks.len(),
                forall|p: u64|
                    #[trigger] groups@.contains_key(p) <==> kids_in(old_nodes, ks@.take(i as int), p).len()
                        > 0,
                forall|p: u64|
                    groups@.contains_key(p) ==> (#[trigger] groups@[p])@ == kids_in(
                        old_nodes,
                        ks@.take(i as int),
                        p,
                    ),
            decreases ks.len() - i,
        {
            let c = ks[i];
            proof {
                assert(ks@.to_set().contains(c));
            }
            let parent = match self.nodes.get(&c) {
                Some(n) => n.parent_record,
                None => c,
            };
            proof {
                assert forall|p: u64|
                    kids_in(old_nodes, ks@.take(i + 1), p) == (if is_child_of(old_nodes, c, p) {
                        kids_in(old_nodes, ks@.take(i as int), p).push(c)
                    } else {
                        kids_in(old_nodes, ks@.take(i as int), p)
                    }) by {
                    lemma_kids_in_take(old_nodes, ks@, i as int, p);
                }
            }
            if c != parent {
                let v = match groups.remove(&parent) {
                    Some(v0) => {
                        let mut v = v0;
                        v.push(c);
                        v
                    },
                    None => {
                        let mut v = Vec::new();
                        v.push(c);
                        v
                    },
                };
                groups.insert(parent, v);
            }
            i += 1;
        }
        proof {
            assert(ks@.take(ks.len() as int) =~= ks@);
        }
        let ghost mid_groups = groups@;
        let mut j: usize = 0;
        while j < ks.len()
            invariant
                ks@.to_set() == old_nodes.dom(),
                ks@.no_duplicates(),
                j <= ks.len(),
                forall|p: u64|
                    #[trigger] mid_groups.contains_key(p) <==> kids_in(old_nodes, ks@, p).len() > 0,
                forall|p: u64|
                    mid_groups.contains_key(p) ==> (#[trigger] mid_groups[p])@ == kids_in(
                        old_nodes,
                        ks@,
                        p,
                    ),
                forall|m: int|
                    j <= m < ks.len() ==> (groups@.contains_key(#[trigger] ks@[m])
                        <==> mid_groups.contains_key(ks@[m])) && (groups@.contains_key(ks@[m])
                        ==> groups@[ks@[m]] == mid_groups[ks@[m]]),
                self.nodes@.dom() == old_nodes.dom(),
                forall|m: int|
                    0 <= m < j ==> {
                        let k = #[trigger] ks@[m];
                        &&& same_but_children(self.nodes@[k], old_nodes[k])
                        &&& self.nodes@[k].children@ == kids_in(old_nodes, ks@, k)
                    },
                forall|m: int| j <= m < ks.len() ==> self.nodes@[#[trigger] ks@[m]] == old_nodes[ks@[m]],
                self.vbr == old(self).vbr,
                self.partition_start_byte_offset == old(self).partition_start_byte_offset,
                self.records@ == old(self).records@,
            decreases ks.len() - j,
        {
            let p = ks[j];
            proof {
                assert(ks@.to_set().contains(p));
                assert forall|m: int| j < m < ks.len() implies ks@[m] != p by {
                    assert(ks@[m] != ks@[j as int]);
                }
            }
            let ch = match groups.remove(&p) {
                Some(ch) => ch,
                None => Vec::new(),
            };
            proof {
                if !mid_groups.contains_key(p) {
                    assert(ch@ =~= kids_in(old_nodes, ks@, p));
                }
            }
            match self.nodes.remove(&p) {
                Some(node) => {
                    let mut node = node;
                    node.children = ch;
                    self.nodes.insert(p, node);
                },
                None => {},
            }
            j += 1;
        }
        proof {
            assert forall|k: u64| #[trigger] old_nodes.contains_key(k) implies linked_node(
                old_nodes,
                k,
                old_nodes[k],
                self.nodes@[k],
            ) by {
                assert(ks@.to_set().contains(k));
                let m = choose|m: int| 0 <= m < ks.len() && ks@[m] == k;
                assert(ks@[m] == k);
                lemma_kids_are_children(old_nodes, ks@, k);
            }
        }
    }

    /// The path of record `record_number` below the volume root, as its components: the
    /// names up the parent links, made safe, root first; `Record_<n>` when there are none.
    pub fn get_path(&self, record_number: u64) -> (r: Vec<String>)
        ensures
            r@.len() == path_of(self.nodes@, record_number).len(),
            forall|i: int|
                0 <= i < r@.len() ==> (#[trigger] r@[i])@ == path_of(self.nodes@, record_number)[i],
    {
        let ghost nodes = self.nodes@;
        let ghost total = nodes.dom().len();
        proof {
            vstd::std_specs::hash::axiom_hashmap_view_finite_dom(self.nodes);
        }
        let mut components: Vec<String> = Vec::new();
        let ghost mut recs: Seq<u64> = Seq::empty();
        let mut current = record_number;
        let mut visited: std::collections::HashSet<u64> = std::collections::HashSet::new();
        loop
            invariant
                nodes == self.nodes@,
                nodes.dom().finite(),
                total == nodes.dom().len(),
                visited@.subset_of(nodes.dom()),
                path_records(nodes, record_number, Set::empty(), total) == recs + path_records(
                    nodes,
                    current,
                    visited@,
                    (total - visited@.len()) as nat,
                ),
                components@.len() == recs.len(),
                forall|i: int|
                    0 <= i < recs.len() ==> (#[trigger] components@[i])@ == sanitized(
                        nodes[recs[i]].name@,
                    ),
            ensures
                path_records(nodes, record_number, Set::empty(), total) == recs,
                components@.len() == recs.len(),
                forall|i: int|
                    0 <= i < recs.len() ==> (#[trigger] components@[i])@ == sanitized(
                        nodes[recs[i]].name@,
                    ),
            decreases total - visited@.len(),
        {
            proof {
                vstd::set_lib::lemma_len_subset(visited@, nodes.dom());
            }
            let node = match self.nodes.get(&current) {
                Some(n) => n,
                None => {
                    assert(recs + Seq::<u64>::empty() =~= recs);
                    break;
                },
            };
            if visited.contains(&current) {
                assert(recs + Seq::<u64>::empty() =~= recs);
                break;
            }
            proof {
                vstd::set_lib::lemma_len_subset(visited@.insert(current), nodes.dom());
            }
            visited.insert(current);
            if current == ROOT_DIRECTORY_RECORD {
                assert(recs + Seq::<u64>::empty() =~= recs);
                break;
            }
            components.push(sanitize_component(node.name.as_str()));
            proof {
                recs = recs.push(current);
            }
            if node.parent_record == current {
                break;
            }
            proof {
                assert(recs.drop_last() + (seq![current] + path_records(
                    nodes,
                    node.parent_record,
                    visited@,
                    (total - visited@.len()) as nat,
                )) =~= recs + path_records(
                    nodes,
                    node.parent_record,
                    visited@,
                    (total - visited@.len()) as nat,
                ));
            }
            current = node.parent_record;
        }
        if components.len() == 0 {
            let mut r = Vec::new();
            r.push(record_label_string(record_number));
            assert(r@.len() == 1);
            return r;
        }
        let mut r: Vec<String> = Vec::new();
        let n = components.len();
        let mut i: usize = 0;
        while i < n
            invariant
                n == components@.len() == recs.len(),
                n > 0,
                i <= n,
                r@.len() == i,
                forall|j: int|
                    0 <= j < recs.len() ==> (#[trigger] components@[j])@ == sanitized(
                        nodes[recs[j]].name@,
                    ),
                forall|j: int|
                    0 <= j < i ==> (#[trigger] r@[j])@ == sanitized(nodes[recs[n - 1 - j]].name@),
            decreases n - i,
        {
            r.push(components[n - 1 - i].clone());
            i += 1;
        }
        r
    }

    /// The records that extraction writes out, each once, in the map's order.
    pub fn files_to_extract(&self) -> (r: Vec<u64>)
        ensures
            r@.no_duplicates(),
            forall|id: u64| r@.contains(id) <==> is_extractable(self.nodes@, self.records@, id),
    {
        let ks = self.node_keys();
        let mut r: Vec<u64> = Vec::new();
        let mut i: usize = 0;
        while i < ks.len()
            invariant
                ks@.to_set() == self.nodes@.dom(),
                ks@.no_duplicates(),
                i <= ks.len(),
                r@.no_duplicates(),
                forall|id: u64|
                    r@.contains(id) <==> (ks@.take(i as int).contains(id) && is_extractable(
                        self.nodes@,
                        self.records@,
                        id,
                    )),
            decreases ks.len() - i,
        {
            let id = ks[i];
            proof {
                assert(ks@.to_set().contains(id));
                assert forall|x: u64| ks@.take(i + 1).contains(x) <==> (ks@.take(i as int).contains(x) || x == id) by {
                    if ks@.take(i + 1).contains(x) {
                        let j = choose|j: int| 0 <= j < i + 1 && #[trigger] ks@.take(i + 1)[j] == x;
                        if j < i {
                            assert(ks@.take(i as int)[j] == x);
                        }
                    }
                    if ks@.take(i as int).contains(x) {
                        let j = choose|j: int| 0 <= j < i && #[trigger] ks@.take(i as int)[j] == x;
                        assert(ks@.take(i + 1)[j] == x);
                    }
                    if x == id {
                        assert(ks@.take(i + 1)[i as int] == x);
                    }
                }
                assert(!ks@.take(i as int).contains(id)) by {
                    if ks@.take(i as int).contains(id) {
                        let j = choose|j: int| 0 <= j < i && #[trigger] ks@.take(i as int)[j] == id;
                        assert(ks@[j] == ks@[i as int]);
                    }
                }
            }
            let node = self.nodes.get(&id).unwrap();
            let name = node.name.as_str();
            let metadata = name.unicode_len() > 0 && name.get_char(0) == '$';
            let keep = !node.is_directory && !metadata && match self.records.get(&id) {
                Some(rec) => rec.data_attribute().is_some(),
                None => false,
            };
            assert(keep == is_extractable(self.nodes@, self.records@, id));
            let ghost old_r = r@;
            if keep {
                proof {
                    lemma_push_fresh(r@, id);
                    assert forall|x: u64| r@.push(id).contains(x) <==> (r@.contains(x) || x == id) by {
                        if r@.push(id).contains(x) {
                            let j = choose|j: int| 0 <= j < r@.len() + 1 && #[trigger] r@.push(id)[j] == x;
                            if j < r@.len() {
                                assert(r@[j] == x);
                            }
                        }
                        if r@.contains(x) {
                            let j = choose|j: int| 0 <= j < r@.len() && #[trigger] r@[j] == x;
                            assert(r@.push(id)[j] == x);
                        }
                        if x == id {
                            assert(r@.push(id)[r@.len() as int] == x);
                        }
                    }
                }
                r.push(id);
            }
            proof {
                assert forall|x: u64| r@.contains(x) <==> (ks@.take(i + 1).contains(x) && is_extractable(
                    self.nodes@,
                    self.records@,
                    x,
                )) by {
                    assert(old_r.contains(x) <==> (ks@.take(i as int).contains(x) && is_extractable(
                        self.nodes@,
                        self.records@,
                        x,
                    )));
                    if x != id {
                        assert(ks@.take(i + 1).contains(x) == ks@.take(i as int).contains(x));
                        assert(r@.contains(x) == old_r.contains(x));
                    } else {
                        assert(ks@.take(i + 1)[i as int] == id);
                        if keep {
                            assert(r@[r@.len() - 1] == id);
                        } else {
                            assert(!old_r.contains(id));
                        }
                    }
                }
            }
            i += 1;
        }
        proof {
            assert(ks@.take(ks.len() as int) =~= ks@);
            assert forall|id: u64| is_extractable(self.nodes@, self.records@, id) implies ks@.contains(id) by {
                assert(ks@.to_set().contains(id));
            }
        }
        r
    }

    /// The size of the stream extraction writes for `record_number`, or why there is none.
    pub fn extract_size(&self, record_number: u64) -> (r: Result<u64>)
        ensures
            !self.records@.contains_key(record_number) ==> (r matches Err(
                RecoveryError::NtfsError(m),
            ) && m@ == record_missing_message(record_number)),
            self.records@.contains_key(record_number) && !has_default_data(
                self.records@[record_number].attributes@,
            ) ==> (r matches Err(RecoveryError::NtfsError(m)) && m@ == no_data_message(
                record_number,
            )),
            self.records@.contains_key(record_number) && has_default_data(
                self.records@[record_number].attributes@,
            ) ==> r == Ok::<u64, RecoveryError>(
                stream_size(
                    self.records@[record_number].attributes@[data_index(
                        self.records@[record_number].attributes@,
                    )],
                ),
            ),
    {
        let record = match self.records.get(&record_number) {
            Some(rec) => rec,
            None => return Err(RecoveryError::NtfsError(record_missing_string(record_number))),
        };
        let ghost attrs = record.attributes@;
        match record.data_attribute() {
            Some(data) => {
                proof {
                    let k = choose|k: int|
                        is_first(attrs, k, |a: NtfsAttribute| is_default_data(a)) && *data
                            == #[trigger] attrs[k];
                    assert(is_first_data(attrs, k));
                    lemma_first_unique(
                        attrs,
                        |a: NtfsAttribute| is_default_data(a),
                        k,
                        data_index(attrs),
                    );
                }
                match &data.data {
                    AttributeData::Resident(b) => Ok(b.len() as u64),
                    AttributeData::NonResident { real_size, .. } => Ok(*real_size),
                }
            },
            None => Err(RecoveryError::NtfsError(no_data_string(record_number))),
        }
    }

    /// Writes the unnamed `$DATA` stream of `record_number` to `sink`: the resident bytes, or
    /// the clusters of the runs, up to the stream's size, with zeros for sparse runs and for
    /// clusters that cannot be read. Each cluster of a non-resident stream that is stored at
    /// an offset that fits in 64 bits, up to the stream's size, is read from the device once,
    /// whole, in order; nothing else is read. Returns the number of bytes written.
    pub fn extract_file(
        &self,
        device: &mut dyn BlockDevice,
        record_number: u64,
        sink: &mut dyn ByteSink,
    ) -> (r: Result<u64>)
        ensures
            final(device).data() == old(device).data(),
            !self.records@.contains_key(record_number) ==> (r matches Err(
                RecoveryError::NtfsError(m),
            ) && m@ == record_missing_message(record_number)) && final(sink).written() == old(
                sink,
            ).written() && final(device).read_log() == old(device).read_log(),
            self.records@.contains_key(record_number) && !has_default_data(
                self.records@[record_number].attributes@,
            ) ==> (r matches Err(RecoveryError::NtfsError(m)) && m@ == no_data_message(
                record_number,
            )) && final(sink).written() == old(sink).written() && final(device).read_log() == old(
                device,
            ).read_log(),
            self.records@.contains_key(record_number) && has_default_data(
                self.records@[record_number].attributes@,
            ) ==> {
                let a = self.records@[record_number].attributes@[data_index(
                    self.records@[record_number].attributes@,
                )];
                match a.data {
                    AttributeData::Resident(v) => {
                        &&& final(sink).written() == old(sink).written() + v@
                        &&& final(device).read_log() == old(device).read_log()
                        &&& r is Ok ==> r == Ok::<u64, RecoveryError>(v@.len() as u64)
                    },
                    AttributeData::NonResident { real_size, data_runs, .. } => {
                        let x = final(sink).written().skip(old(sink).written().len() as int);
                        &&& final(sink).written().len() >= old(sink).written().len()
                        &&& final(sink).written().take(old(sink).written().len() as int)
                            == old(sink).written()
                        &&& stream_bytes_fit(
                            x,
                            data_runs@,
                            self.vbr.spec_bytes_per_cluster() as int,
                            real_size as int,
                            self.partition_start_byte_offset as int,
                            old(device).data(),
                        )
                        &&& r == Ok::<u64, RecoveryError>(x.len() as u64)
                        &&& log_extends(old(device).read_log(), final(device).read_log())
                        &&& reads_since(old(device).read_log(), final(device).read_log()).len()
                            == reads_before(
                            data_runs@,
                            self.vbr.spec_bytes_per_cluster() as int,
                            self.partition_start_byte_offset as int,
                            clusters_within(
                                total_clusters(data_runs@),
                                self.vbr.spec_bytes_per_cluster() as int,
                                real_size as int,
                                0,
                            ),
                        )
                        &&& clusters_read_fit(
                            x,
                            reads_since(old(device).read_log(), final(device).read_log()),
                            total_clusters(data_runs@),
                            data_runs@,
                            self.vbr.spec_bytes_per_cluster() as int,
                            real_size as int,
                            self.partition_start_byte_offset as int,
                            old(device).data(),
                        )
                    },
                }
            },
    {
        let record = match self.records.get(&record_number) {
            Some(rec) => rec,
            None => return Err(RecoveryError::NtfsError(record_missing_string(record_number))),
        };
        let ghost attrs = record.attributes@;
        let data_attr = match record.data_attribute() {
            Some(data) => data,
            None => return Err(RecoveryError::NtfsError(no_data_string(record_number))),
        };
        proof {
            let k = choose|k: int|
                is_first(attrs, k, |a: NtfsAttribute| is_default_data(a)) && *data_attr
                    == #[trigger] attrs[k];
            assert(is_first_data(attrs, k));
            lemma_first_unique(attrs, |a: NtfsAttribute| is_default_data(a), k, data_index(attrs));
        }
        match &data_attr.data {
            AttributeData::Resident(bytes) => {
                sink.write_all(bytes.as_slice())?;
                Ok(bytes.len() as u64)
            },
            AttributeData::NonResident { real_size, data_runs, .. } => {
                let n = self.stream_runs(device, data_runs, *real_size, sink);
                Ok(n)
            },
        }
    }

    /// Writes the clusters of `runs` to `sink`, up to `real_size` bytes.
    #[verifier::rlimit(40)]
    fn stream_runs<D: BlockDevice + ?Sized, S: ByteSink + ?Sized>(
        &self,
        device: &mut D,
        runs: &Vec<DataRun>,
        real_size: u64,
        sink: &mut S,
    ) -> (n: u64)
        ensures
            final(device).data() == old(device).data(),
            final(sink).written().len() == old(sink).written().len() + n,
            final(sink).written().take(old(sink).written().len() as int) == old(sink).written(),
            n == stream_len(runs@, self.vbr.spec_bytes_per_cluster() as int, real_size as int),
            stream_bytes_fit(
                final(sink).written().skip(old(sink).written().len() as int),
                runs@,
                self.vbr.spec_bytes_per_cluster() as int,
                real_size as int,
                self.partition_start_byte_offset as int,
                old(device).data(),
            ),
            log_extends(old(device).read_log(), final(device).read_log()),
            reads_since(old(device).read_log(), final(device).read_log()).len() == reads_before(
                runs@,
                self.vbr.spec_bytes_per_cluster() as int,
                self.partition_start_byte_offset as int,
                clusters_within(
                    total_clusters(runs@),
                    self.vbr.spec_bytes_per_cluster() as int,
                    real_size as int,
                    0,
                ),
            ),
            clusters_read_fit(
                final(sink).written().skip(old(sink).written().len() as int),
                reads_since(old(device).read_log(), final(device).read_log()),
                total_clusters(runs@),
                runs@,
                self.vbr.spec_bytes_per_cluster() as int,
                real_size as int,
                self.partition_start_byte_offset as int,
                old(device).data(),
            ),
    {
        let bpc32 = self.vbr.bytes_per_cluster();
        let bpc = bpc32 as usize;
        let bpc64 = bpc32 as u64;
        let ghost bpci = bpc as int;
        let ghost dev = device.data();
        let ghost base = sink.written();
        let ghost start = self.partition_start_byte_offset as int;
        let ghost rsz = real_size as int;
        let ghost log0 = device.read_log();
        let mut cluster_buf: Vec<u8> = vec![0u8; bpc];
        let zeros: Vec<u8> = vec![0u8; bpc];
        let mut bytes_written: u64 = 0;
        let ghost mut k: int = 0;
        let mut r: usize = 0;
        assert(sink.written().skip(base.len() as int) =~= Seq::<u8>::empty());
        assert(log0.take(log0.len() as int) =~= log0);
        assert(reads_since(log0, device.read_log()) =~= Seq::<(u64, nat, bool)>::empty());
        while r < runs.len()
            invariant
                bpci == self.vbr.spec_bytes_per_cluster(),
                bpc == bpci,
                bpc64 == bpci,
                cluster_buf@.len() == bpc,
                zeros@ == Seq::new(bpc as nat, |i: int| 0u8),
                dev == device.data(),
                start == self.partition_start_byte_offset,
                rsz == real_size,
                r <= runs@.len(),
                0 <= k <= clusters_before(runs@, r as int),
                bytes_written == written_upto(k, bpci, rsz),
                bytes_written < real_size ==> k == clusters_before(runs@, r as int),
                sink.written().len() == base.len() + bytes_written,
                sink.written().take(base.len() as int) == base,
                chunks_fit(sink.written().skip(base.len() as int), k as int, runs@, bpci, rsz, start, dev),
                log_extends(log0, device.read_log()),
                k > 0 ==> (k - 1) * bpci < rsz,
                reads_since(log0, device.read_log()).len() == reads_before(runs@, bpci, start, k),
                clusters_read_fit(sink.written().skip(base.len() as int), reads_since(log0, device.read_log()), k, runs@, bpci, rsz, start, dev),
            decreases runs@.len() - r,
        {
            let run = &runs[r];
            let mut c: u64 = 0;
            proof {
                lemma_before_monotone(runs@, r as int);
                lemma_clusters_step(runs@, r as int);
            }
            while c < run.length_clusters && bytes_written < real_size
                invariant
                    bpci == self.vbr.spec_bytes_per_cluster(),
                    bpc == bpci,
                    bpc64 == bpci,
                    cluster_buf@.len() == bpc,
                    zeros@ == Seq::new(bpc as nat, |i: int| 0u8),
                    dev == device.data(),
                    start == self.partition_start_byte_offset,
                    rsz == real_size,
                    r < runs@.len(),
                    *run == runs@[r as int],
                    c <= run.length_clusters,
                    0 <= k <= clusters_before(runs@, r as int) + c,
                    bytes_written == written_upto(k, bpci, rsz),
                    bytes_written < real_size ==> k == clusters_before(runs@, r as int) + c,
                    sink.written().len() == base.len() + bytes_written,
                    sink.written().take(base.len() as int) == base,
                    chunks_fit(sink.written().skip(base.len() as int), k as int, runs@, bpci, rsz, start, dev),
                    log_extends(log0, device.read_log()),
                    k > 0 ==> (k - 1) * bpci < rsz,
                    reads_since(log0, device.read_log()).len() == reads_before(runs@, bpci, start, k),
                    clusters_read_fit(sink.written().skip(base.len() as int), reads_since(log0, device.read_log()), k, runs@, bpci, rsz, start, dev),
                decreases run.length_clusters - c,
            {
                let remaining = real_size - bytes_written;
                let to_copy: usize = if remaining < bpc64 {
                    remaining as usize
                } else {
                    bpc
                };
                proof {
                    lemma_cluster_at(runs@, r as int, c as int);
                    assert(to_copy == chunk_len(k as int, bpci, rsz));
                }
                let ghost before_write = sink.written();
                let ghost log_before = device.read_log();
                let ghost mut entry: Option<(u64, nat, bool)> = None;
                let mut read_ok = false;
                match run.lcn {
                    Some(base_lcn) => {
                        match cluster_offset(self.partition_start_byte_offset, base_lcn, c, bpc64) {
                            Some(off) => {
                                if device.read_exact_at(off, cluster_buf.as_mut_slice()).is_ok() {
                                    read_ok = true;
                                }
                                proof {
                                    entry = Some((off, bpc as nat, read_ok));
                                }
                            },
                            None => {},
                        }
                    },
                    None => {},
                }
                proof {
                    assert(cluster_offset_of(runs@, bpci, start, k) == match entry {
                        Some(e) => Some(e.0 as int),
                        None => None::<int>,
                    });
                    assert(device.read_log() == match entry {
                        Some(e) => log_before.push(e),
                        None => log_before,
                    });
                    assert(read_ok ==> (entry matches Some(e) && e.2));
                    assert(entry matches Some(e) ==> (e.1 == bpci && e.2 == read_ok && (read_ok
                        ==> cluster_buf@ == dev.subrange(e.0 as int, e.0 + bpci))));
                }
                let ghost chunk = if read_ok {
                    cluster_buf@.subrange(0, to_copy as int)
                } else {
                    zeros@.subrange(0, to_copy as int)
                };
                let _ = if read_ok {
                    sink.write_all(&cluster_buf.as_slice()[0..to_copy])
                } else {
                    sink.write_all(&zeros.as_slice()[0..to_copy])
                };
                proof {
                    let x0 = before_write.skip(base.len() as int);
                    let x1 = sink.written().skip(base.len() as int);
                    assert(x1 =~= x0 + chunk);
                    lemma_chunks_extend(x0, chunk, k as int, runs@, bpci, rsz, start, dev);
                    assert(x1.subrange(k * bpci, k * bpci + to_copy) =~= chunk);
                    assert(chunk =~= Seq::new(to_copy as nat, |i: int| 0u8) || (runs@[r as int].lcn is Some && chunk
                        == dev.subrange(
                        start + (runs@[r as int].lcn->0 + c) * bpci,
                        start + (runs@[r as int].lcn->0 + c) * bpci + to_copy,
                    )));
                    assert(sink.written().take(base.len() as int) =~= base);
                    assert((k + 1) * bpci == k * bpci + bpci) by (nonlinear_arith);
                    let reads0 = reads_since(log0, log_before);
                    let more = match entry {
                        Some(e) => seq![e],
                        None => Seq::<(u64, nat, bool)>::empty(),
                    };
                    if entry is Some {
                        lemma_log_push(log_before, entry->0);
                    } else {
                        assert(log_before.take(log_before.len() as int) =~= log_before);
                        assert(reads_since(log_before, device.read_log()) =~= more);
                    }
                    lemma_log_trans(log0, log_before, device.read_log());
                    assert(reads_since(log0, device.read_log()) =~= reads0 + more);
                    if read_ok {
                        let e = entry->0;
                        assert(chunk =~= dev.subrange(e.0 as int, e.0 + to_copy));
                    } else {
                        assert(chunk =~= Seq::new(chunk.len(), |i: int| 0u8));
                    }
                    lemma_read_step(x0, chunk, reads0, entry, k as int, runs@, bpci, rsz, start, dev);
                }
                proof {
                    if k * bpci >= rsz {
                        assert(written_upto(k, bpci, rsz) == rsz);
                    }
                }
                bytes_written = bytes_written + to_copy as u64;
                proof {
                    k = k + 1;
                }
                c = c + 1;
            }
            proof {
                lemma_clusters_step(runs@, r as int);
            }
            r += 1;
        }
        proof {
            lemma_clusters_all(runs@);
            let total = total_clusters(runs@);
            if bytes_written >= real_size {
                assert(k as int * bpci <= total * bpci) by (nonlinear_arith)
                    requires k <= total, bpci >= 0;
            }
            let x = sink.written().skip(base.len() as int);
            assert forall|j: int| 0 <= j < total && j * bpci < rsz implies j < k && #[trigger] x.subrange(
                j * bpci,
                j * bpci + chunk_len(j, bpci, rsz),
            ) == x.subrange(j * bpci, j * bpci + chunk_len(j, bpci, rsz)) by {
                if j >= k {
                    assert(k * bpci <= j * bpci) by (nonlinear_arith)
                        requires k <= j, bpci >= 0;
                }
            }
            let reads = reads_since(log0, device.read_log());
            assert forall|i: int| 0 <= i < k implies #[trigger] starts_within(i, bpci, rsz) by {
                assert(i * bpci <= (k - 1) * bpci) by (nonlinear_arith)
                    requires i <= k - 1, bpci >= 0;
            }
            if bytes_written < real_size {
                assert(k == total);
            } else {
                assert(k * bpci >= rsz);
            }
            lemma_clusters_within(total, bpci, rsz, 0, k as int);
            assert forall|j: int| 0 <= j < total && j * bpci < rsz implies #[trigger] cluster_read_fits(
                x,
                reads,
                j,
                runs@,
                bpci,
                rsz,
                start,
                dev,
            ) by {
                if j >= k {
                    assert(k * bpci <= j * bpci) by (nonlinear_arith)
                        requires k <= j, bpci >= 0;
                }
            }
        }
        bytes_written
    }

    /// The record numbers of the nodes, each once, in the map's order.
    fn node_keys(&self) -> (ks: Vec<u64>)
        ensures
            ks@.to_set() == self.nodes@.dom(),
            ks@.no_duplicates(),
    {
        let mut ks: Vec<u64> = Vec::new();
        for k in it: self.nodes.keys()
            invariant
                ks@ == it.seq().take(it.index()).unref(),
        {
            proof {
                assert(it.seq().take(it.index() + 1).unref() =~= it.seq().take(it.index()).unref().push(*k));
            }
            ks.push(*k);
        }
        assert(ks@ =~= vstd::std_specs::hash::spec_keys_iter(&self.nodes).remaining().unref());
        ks
    }
}

} // verus!
