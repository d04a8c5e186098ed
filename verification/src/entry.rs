//! Discovery pipeline: classify file names, pair kernels with initrds by
//! version, and order the resulting boot entries.

use vstd::prelude::*;

use crate::text::{
    contains_substr, find_first, find_last, has_substring, lemma_tail_after_first_is_suffix,
    lemma_tail_after_last_is_suffix, str_eq, tail_after_first, tail_after_last,
};
use crate::version::{ver_le, ver_le_exec};

verus! {

/// What a classified file is: an initial ramdisk or a kernel image.
#[derive(Clone, Copy, PartialEq, Eq, Structural, Debug)]
pub enum ItemKind {
    Initrd,
    Kernel,
}

/// A classified file: its kind, the version token extracted from its name
/// (absent when none was found), and the path under which it will appear in
/// the emitted configuration.
#[derive(Debug)]
pub struct Item {
    pub kind: ItemKind,
    pub version: Option<String>,
    pub path: String,
}

/// Mathematical image of an [`Item`].
pub ghost struct ItemV {
    pub kind: ItemKind,
    pub version: Option<Seq<char>>,
    pub path: Seq<char>,
}

/// One selectable boot entry: a kernel and its matching initrd, with the
/// version that paired them (kept for ordering only).
#[derive(Debug)]
pub struct Entry {
    pub title: String,
    pub initrd: String,
    pub kernel: String,
    pub version: Option<String>,
}

/// Mathematical image of an [`Entry`].
pub ghost struct EntryV {
    pub title: Seq<char>,
    pub initrd: Seq<char>,
    pub kernel: Seq<char>,
    pub version: Option<Seq<char>>,
}

/// View of an optional string as an optional character sequence.
pub open spec fn opt_str_view(v: Option<String>) -> Option<Seq<char>> {
    match v {
        Some(s) => Some(s@),
        None => None,
    }
}

impl View for Item {
    type V = ItemV;

    open spec fn view(&self) -> ItemV {
        ItemV { kind: self.kind, version: opt_str_view(self.version), path: self.path@ }
    }
}

impl View for Entry {
    type V = EntryV;

    open spec fn view(&self) -> EntryV {
        EntryV {
            title: self.title@,
            initrd: self.initrd@,
            kernel: self.kernel@,
            version: opt_str_view(self.version),
        }
    }
}

/// The characters after the last `/` of a path; the whole path when it has
/// no `/`.
pub open spec fn spec_basename(p: Seq<char>) -> Seq<char> {
    tail_after_last(p, '/')
}

/// Whether a basename carries the one extension that classification strips:
/// a final `.img` whose dot is not the leading character.
pub open spec fn has_img_suffix(b: Seq<char>) -> bool {
    b.len() >= 5 && b.subrange(b.len() - 4, b.len() as int) == ".img"@
}

/// The classification token of a basename: the basename with a final `.img`
/// removed, and otherwise unchanged.
pub open spec fn strip_img(b: Seq<char>) -> Seq<char> {
    if has_img_suffix(b) {
        b.subrange(0, b.len() - 4)
    } else {
        b
    }
}

/// The version of a token: the characters after its first `-`, taken
/// verbatim; absent when the token has no `-` or when that remainder
/// contains `linux`.
pub open spec fn spec_version_of(t: Seq<char>) -> Option<Seq<char>> {
    if !t.contains('-') {
        None
    } else {
        let seg = tail_after_first(t, '-');
        if has_substring(seg, "linux"@) {
            None
        } else {
            Some(seg)
        }
    }
}

/// The kind of a token: initrd patterns win over kernel patterns, and a token
/// that matches neither has no kind.
pub open spec fn spec_kind_of(t: Seq<char>) -> Option<ItemKind> {
    if has_substring(t, "initrd"@) || has_substring(t, "initramfs"@) {
        Some(ItemKind::Initrd)
    } else if has_substring(t, "vmlinuz"@) || has_substring(t, "vmlinux"@) {
        Some(ItemKind::Kernel)
    } else {
        None
    }
}

/// Full classification of one path: kind and version come from the stripped
/// basename, while the emitted path keeps the basename as it stands, rooted
/// at `/`.
pub open spec fn spec_classify(p: Seq<char>) -> Option<ItemV> {
    let b = spec_basename(p);
    let t = strip_img(b);
    match spec_kind_of(t) {
        Some(k) => Some(
            ItemV { kind: k, version: spec_version_of(t), path: seq!['/'] + b },
        ),
        None => None,
    }
}

/// View of an optional item.
pub open spec fn opt_item_view(r: Option<Item>) -> Option<ItemV> {
    match r {
        Some(i) => Some(i@),
        None => None,
    }
}

/// Classify one file path. The decision uses only the basename: strip a
/// final `.img`, read the version from what follows the first `-`, and match
/// the initrd and kernel name patterns. Files that match no pattern yield
/// `None`.
pub fn classify(path: &str) -> (r: Option<Item>)
    ensures
        opt_item_view(r) == spec_classify(path@),
{
    let n = path.unicode_len();
    let bstart: usize = match find_last(path, '/') {
        Some(j) => j + 1,
        None => 0,
    };
    let bn = path.substring_char(bstart, n);
    proof {
        lemma_tail_after_last_is_suffix(path@, '/', bstart as int);
    }
    let bn_len = n - bstart;
    assert(bn_len == bn@.len());

    let has_img = bn_len >= 5 && bn.get_char(bn_len - 4) == '.' && bn.get_char(bn_len - 3) == 'i'
        && bn.get_char(bn_len - 2) == 'm' && bn.get_char(bn_len - 1) == 'g';
    proof {
        reveal_strlit(".img");
        if has_img {
            assert(bn@.subrange(bn_len - 4, bn_len as int) =~= ".img"@);
        }
        if !has_img && bn@.len() >= 5 {
            if bn@.subrange(bn_len - 4, bn_len as int) == ".img"@ {
                assert(bn@[bn_len - 4] == ".img"@[0]);
                assert(bn@[bn_len - 3] == ".img"@[1]);
                assert(bn@[bn_len - 2] == ".img"@[2]);
                assert(bn@[bn_len - 1] == ".img"@[3]);
            }
        }
        assert(has_img == has_img_suffix(bn@));
    }
    let token = if has_img {
        bn.substring_char(0, bn_len - 4)
    } else {
        bn
    };
    assert(token@ == strip_img(bn@));

    let kind = if contains_substr(token, "initrd") || contains_substr(token, "initramfs") {
        ItemKind::Initrd
    } else if contains_substr(token, "vmlinuz") || contains_substr(token, "vmlinux") {
        ItemKind::Kernel
    } else {
        return None;
    };
    assert(spec_kind_of(token@) == Some(kind));

    let token_len = token.unicode_len();
    let version: Option<String> = match find_first(token, '-') {
        None => None,
        Some(j) => {
            proof {
                assert(token@[j as int] == '-');
                lemma_tail_after_first_is_suffix(token@, '-', j as int);
            }
            let seg = token.substring_char(j + 1, token_len);
            if contains_substr(seg, "linux") {
                None
            } else {
                Some(seg.to_owned())
            }
        },
    };
    assert(opt_str_view(version) == spec_version_of(token@));

    let mut p = "/".to_owned();
    p.append(bn);
    proof {
        reveal_strlit("/");
        assert(p@ =~= seq!['/'] + bn@);
    }
    Some(Item { kind, version, path: p })
}

/// Views of a sequence of items.
pub open spec fn item_views(s: Seq<Item>) -> Seq<ItemV> {
    s.map_values(|x: Item| x@)
}

/// The title an entry carries: `Linux - <version>` when the version is
/// present, plain `Linux` when it is absent.
pub open spec fn spec_title(v: Option<Seq<char>>) -> Seq<char> {
    match v {
        Some(s) => "Linux - "@ + s,
        None => "Linux"@,
    }
}

/// The entry a clean two-item bucket yields: exactly one initrd and exactly
/// one kernel, in either order. Any other bucket yields nothing.
pub open spec fn spec_pair_entry(items: Seq<ItemV>, version: Option<Seq<char>>) -> Option<
    EntryV,
> {
    if items.len() != 2 {
        None
    } else if items[0].kind == ItemKind::Initrd && items[1].kind == ItemKind::Kernel {
        Some(spec_mk_entry(items[1], items[0], version))
    } else if items[0].kind == ItemKind::Kernel && items[1].kind == ItemKind::Initrd {
        Some(spec_mk_entry(items[0], items[1], version))
    } else {
        None
    }
}

/// The entry built from a kernel item and an initrd item.
pub open spec fn spec_mk_entry(kernel: ItemV, initrd: ItemV, version: Option<Seq<char>>) -> EntryV {
    EntryV {
        title: spec_title(version),
        initrd: initrd.path,
        kernel: kernel.path,
        version: kernel.version,
    }
}

/// The items of `s` whose version equals `v`, in order.
pub open spec fn filter_ver(s: Seq<ItemV>, v: Option<Seq<char>>) -> Seq<ItemV>
    decreases s.len(),
{
    if s.len() == 0 {
        Seq::<ItemV>::empty()
    } else if s.last().version == v {
        filter_ver(s.drop_last(), v).push(s.last())
    } else {
        filter_ver(s.drop_last(), v)
    }
}

/// The entry the version bucket of `v` yields, if a clean pair.
pub open spec fn entry_for(s: Seq<ItemV>, v: Option<Seq<char>>) -> Option<EntryV> {
    spec_pair_entry(filter_ver(s, v), v)
}

/// Every item a version bucket holds carries that bucket's version.
pub proof fn lemma_filter_ver_versions(s: Seq<ItemV>, v: Option<Seq<char>>)
    ensures
        forall|j: int| 0 <= j < filter_ver(s, v).len() ==> #[trigger] filter_ver(s, v)[j].version
            == v,
    decreases s.len(),
{
    if s.len() > 0 {
        lemma_filter_ver_versions(s.drop_last(), v);
    }
}

/// Every item a version bucket holds occurs in the underlying sequence.
pub proof fn lemma_filter_ver_subset(s: Seq<ItemV>, v: Option<Seq<char>>)
    ensures
        forall|j: int| 0 <= j < filter_ver(s, v).len() ==> exists|i: int|
            0 <= i < s.len() && s[i] == #[trigger] filter_ver(s, v)[j],
    decreases s.len(),
{
    if s.len() > 0 {
        lemma_filter_ver_subset(s.drop_last(), v);
        assert forall|j: int| 0 <= j < filter_ver(s, v).len() implies exists|i: int|
            0 <= i < s.len() && s[i] == #[trigger] filter_ver(s, v)[j] by {
            let f = filter_ver(s, v);
            let f0 = filter_ver(s.drop_last(), v);
            if j < f0.len() {
                let i = choose|i: int| 0 <= i < s.drop_last().len() && s.drop_last()[i] == f0[j];
                assert(s[i] == f[j]);
            } else {
                assert(s[s.len() - 1] == f[j]);
            }
        }
    }
}

/// The entry a clean bucket yields carries the bucket's version.
pub proof fn lemma_entry_for_version(s: Seq<ItemV>, v: Option<Seq<char>>)
    requires
        entry_for(s, v) is Some,
    ensures
        entry_for(s, v)->0.version == v,
{
    lemma_filter_ver_versions(s, v);
}

/// Pairing law: an emitted entry always stands for a version bucket of
/// exactly two items, one initrd and one kernel, and takes its paths from
/// them.
pub proof fn lemma_pairing(s: Seq<ItemV>, v: Option<Seq<char>>)
    requires
        entry_for(s, v) is Some,
    ensures
        filter_ver(s, v).len() == 2,
        filter_ver(s, v)[0].kind == ItemKind::Initrd <==> filter_ver(s, v)[1].kind
            == ItemKind::Kernel,
        filter_ver(s, v)[0].kind == ItemKind::Initrd || filter_ver(s, v)[0].kind
            == ItemKind::Kernel,
        entry_for(s, v)->0.kernel == (if filter_ver(s, v)[0].kind == ItemKind::Kernel {
            filter_ver(s, v)[0]
        } else {
            filter_ver(s, v)[1]
        }).path,
        entry_for(s, v)->0.initrd == (if filter_ver(s, v)[0].kind == ItemKind::Initrd {
            filter_ver(s, v)[0]
        } else {
            filter_ver(s, v)[1]
        }).path,
{
}

/// Suffix law: appending `.img` to a path whose basename does not already
/// end in `.img` leaves the classified kind and version unchanged; only the
/// emitted path differs.
pub proof fn lemma_suffix_policy(p: Seq<char>)
    requires
        spec_basename(p).len() >= 1,
        !has_img_suffix(spec_basename(p)),
    ensures
        match (spec_classify(p + ".img"@), spec_classify(p)) {
            (Some(a), Some(b)) => a.kind == b.kind && a.version == b.version,
            (None, None) => true,
            _ => false,
        },
{
    reveal_strlit(".img");
    assert(forall|k: int| 0 <= k < ".img"@.len() ==> ".img"@[k] != '/');
    crate::text::lemma_tail_after_last_append(p, ".img"@, '/');
    let bn = spec_basename(p);
    let bn2 = spec_basename(p + ".img"@);
    assert(bn2 == bn + ".img"@);
    assert(bn2.subrange(bn2.len() - 4, bn2.len() as int) =~= ".img"@);
    assert(has_img_suffix(bn2));
    assert(strip_img(bn2) =~= bn);
    assert(strip_img(bn) == bn);
}

/// Version-filter law: when the version segment of the classification token
/// (everything after its first hyphen) contains `linux`, a classified item
/// carries no version.
pub proof fn lemma_version_filter(p: Seq<char>)
    requires
        has_substring(tail_after_first(strip_img(spec_basename(p)), '-'), "linux"@),
        spec_classify(p) is Some,
    ensures
        spec_classify(p)->0.version is None,
{
}

/// Descending order on entries: versions order by `ver_le`, and an entry
/// without a version stands after every entry with one.
pub open spec fn entry_le(a: EntryV, b: EntryV) -> bool {
    match (a.version, b.version) {
        (Some(x), Some(y)) => ver_le(x, y),
        (Some(x), None) => true,
        (None, Some(y)) => false,
        (None, None) => true,
    }
}

/// Build the entry of one version bucket, as the original discovery step
/// does: the bucket must hold exactly two items that split into one initrd
/// and one kernel; anything else is refused.
pub fn try_to_entry(items: Vec<Item>, version: Option<String>) -> (r: Option<Entry>)
    ensures
        match r {
            Some(e) => spec_pair_entry(item_views(items@), opt_str_view(version)) == Some(e@),
            None => spec_pair_entry(item_views(items@), opt_str_view(version)) is None,
        },
{
    let ghost orig = items@;
    if items.len() != 2 {
        return None;
    }
    let mut items = items;
    let second = items.remove(1);
    let first = items.remove(0);
    assert(first@ == item_views(orig)[0] && second@ == item_views(orig)[1]);
    let (kernel, initrd) = match (first.kind, second.kind) {
        (ItemKind::Initrd, ItemKind::Kernel) => (second, first),
        (ItemKind::Kernel, ItemKind::Initrd) => (first, second),
        _ => {
            return None;
        },
    };
    let title: String = match &version {
        Some(v) => {
            let mut t = "Linux - ".to_owned();
            t.append(v.as_str());
            t
        },
        None => "Linux".to_owned(),
    };
    Some(Entry { title, initrd: initrd.path, kernel: kernel.path, version: kernel.version })
}

/// Views of a sequence of entries.
pub open spec fn entry_views(s: Seq<Entry>) -> Seq<EntryV> {
    s.map_values(|e: Entry| e@)
}

/// Adjacent entries stand in descending order.
pub open spec fn sorted_entries(s: Seq<EntryV>) -> bool {
    forall|i: int| 0 <= i < s.len() - 1 ==> entry_le(s[i], #[trigger] s[i + 1])
}

/// No two entries carry the same version.
pub open spec fn distinct_versions(s: Seq<EntryV>) -> bool {
    forall|i: int, j: int|
        0 <= i < j < s.len() ==> (#[trigger] s[i].version) != (#[trigger] s[j].version)
}

/// Decide whether `a` may stand at or before `b`; when it may not, `b` may
/// stand before `a`.
fn le_entry(a: &Entry, b: &Entry) -> (r: bool)
    ensures
        r == entry_le(a@, b@),
        !r ==> entry_le(b@, a@),
{
    match (&a.version, &b.version) {
        (Some(x), Some(y)) => ver_le_exec(x.as_str(), y.as_str()),
        (Some(_), None) => true,
        (None, Some(_)) => false,
        (None, None) => true,
    }
}

/// Filtering after a push keeps the filtered prefix and appends the new item
/// exactly when its version matches.
proof fn lemma_filter_ver_push(s: Seq<ItemV>, it: ItemV, v: Option<Seq<char>>)
    ensures
        it.version == v ==> filter_ver(s.push(it), v) == filter_ver(s, v).push(it),
        it.version != v ==> filter_ver(s.push(it), v) == filter_ver(s, v),
{
    assert(s.push(it).drop_last() =~= s);
    assert(s.push(it).last() == it);
}

/// Item views distribute over push.
proof fn lemma_item_views_push(s: Seq<Item>, x: Item)
    ensures
        item_views(s.push(x)) == item_views(s).push(x@),
{
    assert(item_views(s.push(x)) =~= item_views(s).push(x@));
}

/// A version bucket under construction.
struct VerBucket {
    version: Option<String>,
    items: Vec<Item>,
}

/// Equality of two optional version strings, by characters.
fn same_version(a: &Option<String>, b: &Option<String>) -> (r: bool)
    ensures
        r == (opt_str_view(*a) == opt_str_view(*b)),
{
    match (a, b) {
        (Some(x), Some(y)) => str_eq(x.as_str(), y.as_str()),
        (None, None) => true,
        _ => false,
    }
}

/// A fresh copy of an optional version string.
fn clone_version(v: &Option<String>) -> (r: Option<String>)
    ensures
        opt_str_view(r) == opt_str_view(*v),
{
    match v {
        Some(s) => Some(s.clone()),
        None => None,
    }
}

/// Index of the bucket that holds `v`, if one exists.
fn find_bucket(buckets: &Vec<VerBucket>, v: &Option<String>) -> (r: Option<usize>)
    ensures
        match r {
            Some(k) => k < buckets@.len() && opt_str_view(buckets@[k as int].version)
                == opt_str_view(*v),
            None => forall|k: int|
                0 <= k < buckets@.len() ==> opt_str_view(#[trigger] buckets@[k].version)
                    != opt_str_view(*v),
        },
{
    let mut k: usize = 0;
    while k < buckets.len()
        invariant
            0 <= k <= buckets@.len(),
            forall|k2: int|
                0 <= k2 < k ==> opt_str_view(#[trigger] buckets@[k2].version) != opt_str_view(*v),
        decreases buckets@.len() - k,
    {
        if same_version(&buckets[k].version, v) {
            return Some(k);
        }
        k += 1;
    }
    None
}

/// Insert `e` into the sorted `out` at a position that keeps adjacent order.
fn insert_sorted(out: &mut Vec<Entry>, e: Entry)
    requires
        sorted_entries(entry_views(old(out)@)),
        distinct_versions(entry_views(old(out)@)),
        forall|i: int|
            0 <= i < old(out)@.len() ==> (#[trigger] old(out)@[i])@.version != e@.version,
    ensures
        distinct_versions(entry_views(final(out)@)),
        final(out)@.len() == old(out)@.len() + 1,
        sorted_entries(entry_views(final(out)@)),
        forall|i: int|
            0 <= i < final(out)@.len() ==> #[trigger] final(out)@[i] == e || old(out)@.contains(
                final(out)@[i],
            ),
        forall|j: int| 0 <= j < old(out)@.len() ==> final(out)@.contains(#[trigger] old(out)@[j]),
        final(out)@.contains(e),
{
    let mut p: usize = out.len();
    let mut searching = true;
    while searching && p > 0
        invariant
            0 <= p <= out@.len(),
            sorted_entries(entry_views(out@)),
            p < out@.len() ==> entry_le(e@, entry_views(out@)[p as int]),
            !searching ==> p > 0 && entry_le(entry_views(out@)[p - 1], e@),
        decreases p + (if searching { 1int } else { 0int }),
    {
        if le_entry(&out[p - 1], &e) {
            searching = false;
        } else {
            p -= 1;
        }
    }
    let ghost before = out@;
    out.insert(p, e);
    proof {
        before.insert_ensures(p as int, e);
        let s = entry_views(out@);
        let s0 = entry_views(before);
        assert forall|i: int| 0 <= i < s.len() - 1 implies entry_le(s[i], #[trigger] s[i + 1]) by {
            if i + 1 < p {
                assert(s[i] == s0[i] && s[i + 1] == s0[i + 1]);
            } else if i + 1 == p {
                assert(s[i] == s0[i] && s[i + 1] == e@);
            } else if i == p {
                assert(s[i] == e@ && s[i + 1] == s0[i]);
            } else {
                assert(s[i] == s0[i - 1] && s[i + 1] == s0[i]);
            }
        }
        assert forall|i: int|
            0 <= i < out@.len() implies #[trigger] out@[i] == e || before.contains(out@[i]) by {
            if i < p {
                assert(before[i] == out@[i]);
            } else if i > p {
                assert(before[i - 1] == out@[i]);
            }
        }
        assert forall|j: int| 0 <= j < before.len() implies out@.contains(
            #[trigger] before[j],
        ) by {
            if j < p {
                assert(out@[j] == before[j]);
            } else {
                assert(out@[j + 1] == before[j]);
            }
        }
        assert(out@[p as int] == e);
        assert forall|i: int, j: int| 0 <= i < j < s.len() implies (#[trigger] s[i].version)
            != (#[trigger] s[j].version) by {
            if i < p {
                assert(s[i] == s0[i]);
            } else if i == p {
                assert(s[i] == e@);
            } else {
                assert(s[i] == s0[i - 1]);
            }
            if j < p {
                assert(s[j] == s0[j]);
            } else if j == p {
                assert(s[j] == e@);
            } else {
                assert(s[j] == s0[j - 1]);
            }
        }
    }
}

/// Absent-last law: in a sorted entry sequence, everything after an entry
/// without a version also has no version, so version-less entries stand at
/// the end.
pub proof fn lemma_absent_version_last(s: Seq<EntryV>, i: int, j: int)
    requires
        sorted_entries(s),
        0 <= i < j < s.len(),
        s[i].version is None,
    ensures
        s[j].version is None,
    decreases j - i,
{
    assert(entry_le(s[i], s[i + 1]));
    assert(s[i + 1].version is None);
    if i + 1 < j {
        lemma_absent_version_last(s, i + 1, j);
    }
}

/// Transitivity of the version order, stated as a premise for the laws that
/// need it: the order of present versions is consulted only through
/// `ver_le`, and the outside comparator is not assumed transitive.
pub open spec fn ver_le_transitive() -> bool {
    forall|x: Seq<char>, y: Seq<char>, z: Seq<char>|
        #![trigger ver_le(x, y), ver_le(y, z)]
        ver_le(x, y) && ver_le(y, z) ==> ver_le(x, z)
}

/// Antisymmetry of the version order: two version strings that each may
/// stand before the other are the same string.
pub open spec fn ver_le_antisymmetric() -> bool {
    forall|x: Seq<char>, y: Seq<char>|
        #![trigger ver_le(x, y), ver_le(y, x)]
        ver_le(x, y) && ver_le(y, x) ==> x == y
}

/// Ordering law, pairwise form: adjacent order extends to any two positions
/// whenever the version order is transitive.
pub proof fn lemma_sorted_pairwise(s: Seq<EntryV>, i: int, j: int)
    requires
        sorted_entries(s),
        0 <= i < j < s.len(),
        ver_le_transitive(),
    ensures
        entry_le(s[i], s[j]),
    decreases j - i,
{
    let k = j - 1;
    assert(entry_le(s[k], s[k + 1]));
    if i < j - 1 {
        lemma_sorted_pairwise(s, i, j - 1);
        if s[i].version is None {
            lemma_absent_version_last(s, i, j);
        }
    }
}

/// Entries of `r1` and `r2` correspond by version: equal versions carry
/// equal entries, and each side's versions all occur on the other side.
spec fn aligned(r1: Seq<EntryV>, r2: Seq<EntryV>) -> bool {
    &&& forall|i: int, j: int|
        0 <= i < r1.len() && 0 <= j < r2.len() && (#[trigger] r1[i]).version == (
        #[trigger] r2[j]).version ==> r1[i] == r2[j]
    &&& forall|i: int|
        0 <= i < r1.len() ==> exists|j: int|
            0 <= j < r2.len() && (#[trigger] r1[i]).version == r2[j].version
    &&& forall|j: int|
        0 <= j < r2.len() ==> exists|i: int|
            0 <= i < r1.len() && (#[trigger] r2[j]).version == r1[i].version
}

/// Two sorted, duplicate-free, aligned entry sequences agree position by
/// position up to `k`, provided the version order is transitive and
/// antisymmetric.
#[verifier::rlimit(50)]
#[verifier::spinoff_prover]
proof fn lemma_prefix_agree(r1: Seq<EntryV>, r2: Seq<EntryV>, k: int)
    requires
        sorted_entries(r1),
        sorted_entries(r2),
        distinct_versions(r1),
        distinct_versions(r2),
        aligned(r1, r2),
        ver_le_transitive(),
        ver_le_antisymmetric(),
        0 <= k < r1.len(),
        k < r2.len(),
    ensures
        forall|m: int| 0 <= m <= k ==> r1[m] == r2[m],
    decreases k,
{
    if k > 0 {
        lemma_prefix_agree(r1, r2, k - 1);
    }
    assert(r1[k].version == r1[k].version);
    assert(r2[k].version == r2[k].version);
    let j = choose|j: int| 0 <= j < r2.len() && r1[k].version == r2[j].version;
    let i = choose|i: int| 0 <= i < r1.len() && r2[k].version == r1[i].version;
    assert(r1[k] == r2[j]);
    assert(r2[k] == r1[i]);
    if j < k {
        assert(r1[j] == r2[j]);
        assert(false);
    }
    if i < k {
        assert(r2[i] == r1[i]);
        assert(false);
    }
    if j > k && i > k {
        lemma_sorted_pairwise(r2, k, j);
        lemma_sorted_pairwise(r1, k, i);
        assert(entry_le(r2[k], r1[k]));
        assert(entry_le(r1[k], r2[k]));
        match (r1[k].version, r2[k].version) {
            (Some(x), Some(y)) => {
                assert(ver_le(x, y) && ver_le(y, x));
            },
            _ => {},
        }
        assert(r1[k].version == r2[k].version);
        assert(r1[k] == r2[k]);
    }
}

/// Two sorted, duplicate-free entry sequences that hold entries of exactly
/// the same versions, with equal entries at equal versions, are equal,
/// provided the version order is transitive and antisymmetric.
proof fn lemma_sorted_same_elements(r1: Seq<EntryV>, r2: Seq<EntryV>)
    requires
        sorted_entries(r1),
        sorted_entries(r2),
        distinct_versions(r1),
        distinct_versions(r2),
        aligned(r1, r2),
        ver_le_transitive(),
        ver_le_antisymmetric(),
    ensures
        r1 == r2,
{
    if r1.len() == 0 {
        if r2.len() > 0 {
            assert(r2[0].version == r2[0].version);
            assert(false);
        }
        assert(r1 =~= r2);
    } else if r2.len() == 0 {
        assert(r1[0].version == r1[0].version);
        assert(false);
    } else {
        let m = if r1.len() <= r2.len() {
            r1.len() - 1
        } else {
            r2.len() - 1
        };
        lemma_prefix_agree(r1, r2, m);
        if r1.len() < r2.len() {
            let k = r1.len() as int;
            assert(r2[k].version == r2[k].version);
            let i = choose|i: int| 0 <= i < r1.len() && r2[k].version == r1[i].version;
            assert(r2[i] == r1[i]);
            assert(false);
        }
        if r2.len() < r1.len() {
            let k = r2.len() as int;
            assert(r1[k].version == r1[k].version);
            let j = choose|j: int| 0 <= j < r2.len() && r1[k].version == r2[j].version;
            assert(r1[j] == r2[j]);
            assert(false);
        }
        assert(r1 =~= r2);
    }
}

/// Determinism law: the ordered output is a function of the entry each
/// version bucket yields. Two discovery results whose underlying item
/// sequences give the same entry for every version are equal, provided the
/// version order is transitive and antisymmetric. Directory iteration order
/// is thereby normalized by the sort.
pub proof fn lemma_discovery_deterministic(
    s1: Seq<ItemV>,
    s2: Seq<ItemV>,
    r1: Seq<EntryV>,
    r2: Seq<EntryV>,
)
    requires
        forall|i: int|
            0 <= i < r1.len() ==> entry_for(s1, (#[trigger] r1[i]).version) == Some(r1[i]),
        forall|v: Option<Seq<char>>|
            #[trigger] entry_for(s1, v) is Some ==> exists|i: int|
                0 <= i < r1.len() && r1[i].version == v,
        distinct_versions(r1),
        sorted_entries(r1),
        forall|j: int|
            0 <= j < r2.len() ==> entry_for(s2, (#[trigger] r2[j]).version) == Some(r2[j]),
        forall|v: Option<Seq<char>>|
            #[trigger] entry_for(s2, v) is Some ==> exists|j: int|
                0 <= j < r2.len() && r2[j].version == v,
        distinct_versions(r2),
        sorted_entries(r2),
        forall|v: Option<Seq<char>>| #[trigger] entry_for(s1, v) == entry_for(s2, v),
        ver_le_transitive(),
        ver_le_antisymmetric(),
    ensures
        r1 == r2,
{
    assert forall|i: int, j: int|
        0 <= i < r1.len() && 0 <= j < r2.len() && (#[trigger] r1[i]).version
            == (#[trigger] r2[j]).version implies r1[i] == r2[j] by {
        let v = r1[i].version;
        assert(entry_for(s1, v) == Some(r1[i]));
        assert(entry_for(s2, v) == Some(r2[j]));
        assert(entry_for(s1, v) == entry_for(s2, v));
    }
    assert forall|i: int|
        0 <= i < r1.len() implies exists|j: int|
        0 <= j < r2.len() && (#[trigger] r1[i]).version == r2[j].version by {
        let v = r1[i].version;
        assert(entry_for(s1, v) is Some);
        assert(entry_for(s2, v) is Some);
        let j = choose|j: int| 0 <= j < r2.len() && r2[j].version == v;
        assert(r2[j].version == r1[i].version);
    }
    assert forall|j: int|
        0 <= j < r2.len() implies exists|i: int|
        0 <= i < r1.len() && (#[trigger] r2[j]).version == r1[i].version by {
        let v = r2[j].version;
        assert(entry_for(s2, v) is Some);
        assert(entry_for(s1, v) is Some);
        let i = choose|i: int| 0 <= i < r1.len() && r1[i].version == v;
        assert(r1[i].version == r2[j].version);
    }
    lemma_sorted_same_elements(r1, r2);
}

/// Group classified items into version buckets, keep the buckets that form a
/// clean kernel/initrd pair, and emit their entries in descending version
/// order, entries without a version last.
pub fn convert_items(items: Vec<Item>) -> (r: Vec<Entry>)
    ensures
        forall|i: int|
            0 <= i < r@.len() ==> entry_for(item_views(items@), (#[trigger] r@[i])@.version)
                == Some(r@[i]@),
        forall|v: Option<Seq<char>>|
            #[trigger] entry_for(item_views(items@), v) is Some ==> exists|i: int|
                0 <= i < r@.len() && r@[i]@.version == v,
        distinct_versions(entry_views(r@)),
        sorted_entries(entry_views(r@)),
{
    let ghost all = item_views(items@);
    let mut items = items;
    let mut buckets: Vec<VerBucket> = Vec::new();
    let ghost mut done: Seq<ItemV> = Seq::empty();
    proof {
        assert(done + item_views(items@) =~= all);
    }
    while items.len() > 0
        invariant
            done + item_views(items@) == all,
            forall|k: int|
                0 <= k < buckets@.len() ==> item_views((#[trigger] buckets@[k]).items@)
                    == filter_ver(done, opt_str_view(buckets@[k].version)),
            forall|k1: int, k2: int|
                0 <= k1 < k2 < buckets@.len() ==> opt_str_view((#[trigger] buckets@[k1]).version)
                    != opt_str_view((#[trigger] buckets@[k2]).version),
            forall|v: Option<Seq<char>>|
                #[trigger] filter_ver(done, v).len() > 0 ==> exists|k: int|
                    0 <= k < buckets@.len() && opt_str_view(buckets@[k].version) == v,
        decreases items@.len(),
    {
        let ghost items_before = items@;
        let ghost done0 = done;
        let x = items.remove(0);
        let ghost xv = x@;
        proof {
            assert(item_views(items_before) =~= seq![xv] + item_views(items@));
            assert((done0 + item_views(items_before)) =~= (done0.push(xv) + item_views(items@)));
            done = done0.push(xv);
        }
        let ghost bks0 = buckets@;
        match find_bucket(&buckets, &x.version) {
            Some(k) => {
                let mut b = buckets.remove(k);
                let ghost vb = opt_str_view(b.version);
                let ghost bitems0 = b.items@;
                b.items.push(x);
                proof {
                    lemma_item_views_push(bitems0, x);
                    lemma_filter_ver_push(done0, xv, vb);
                    assert(item_views(b.items@) == filter_ver(done, vb));
                }
                buckets.push(b);
                proof {
                    assert forall|k2: int|
                        0 <= k2 < buckets@.len() implies item_views(
                        (#[trigger] buckets@[k2]).items@,
                    ) == filter_ver(done, opt_str_view(buckets@[k2].version)) by {
                        if k2 < buckets@.len() - 1 {
                            let old_k = if k2 < k { k2 } else { k2 + 1 };
                            assert(buckets@[k2] == bks0[old_k]);
                            assert(opt_str_view(bks0[old_k].version) != vb);
                            lemma_filter_ver_push(done0, xv, opt_str_view(bks0[old_k].version));
                        }
                    }
                    assert forall|v: Option<Seq<char>>|
                        #[trigger] filter_ver(done, v).len() > 0 implies exists|k2: int|
                        0 <= k2 < buckets@.len() && opt_str_view(buckets@[k2].version) == v by {
                        if v == vb {
                            assert(opt_str_view(buckets@[buckets@.len() - 1].version) == v);
                        } else {
                            lemma_filter_ver_push(done0, xv, v);
                            let k0 = choose|k0: int|
                                0 <= k0 < bks0.len() && opt_str_view(bks0[k0].version) == v;
                            let k2 = if k0 < k { k0 } else { k0 - 1 };
                            assert(buckets@[k2] == bks0[k0]);
                        }
                    }
                }
            },
            None => {
                let ver = clone_version(&x.version);
                buckets.push(VerBucket { version: ver, items: vec![x] });
                proof {
                    if filter_ver(done0, xv.version).len() > 0 {
                        let k0 = choose|k0: int|
                            0 <= k0 < bks0.len() && opt_str_view(bks0[k0].version) == xv.version;
                        assert(false);
                    }
                    assert(filter_ver(done0, xv.version) =~= Seq::<ItemV>::empty());
                    lemma_filter_ver_push(done0, xv, xv.version);
                    let b = buckets@[buckets@.len() - 1];
                    assert(item_views(b.items@) =~= seq![xv]);
                    assert(filter_ver(done, xv.version) =~= seq![xv]);
                    assert forall|k2: int|
                        0 <= k2 < buckets@.len() implies item_views(
                        (#[trigger] buckets@[k2]).items@,
                    ) == filter_ver(done, opt_str_view(buckets@[k2].version)) by {
                        if k2 < buckets@.len() - 1 {
                            assert(buckets@[k2] == bks0[k2]);
                            assert(opt_str_view(bks0[k2].version) != xv.version);
                            lemma_filter_ver_push(done0, xv, opt_str_view(bks0[k2].version));
                        }
                    }
                    assert forall|v: Option<Seq<char>>|
                        #[trigger] filter_ver(done, v).len() > 0 implies exists|k2: int|
                        0 <= k2 < buckets@.len() && opt_str_view(buckets@[k2].version) == v by {
                        if v == xv.version {
                            assert(opt_str_view(buckets@[buckets@.len() - 1].version) == v);
                        } else {
                            lemma_filter_ver_push(done0, xv, v);
                            let k0 = choose|k0: int|
                                0 <= k0 < bks0.len() && opt_str_view(bks0[k0].version) == v;
                            assert(buckets@[k0] == bks0[k0]);
                        }
                    }
                }
            },
        }
    }
    proof {
        assert(item_views(items@) =~= Seq::<ItemV>::empty());
        assert(done =~= all);
    }

    let mut out: Vec<Entry> = Vec::new();
    while buckets.len() > 0
        invariant
            forall|k: int|
                0 <= k < buckets@.len() ==> item_views((#[trigger] buckets@[k]).items@)
                    == filter_ver(all, opt_str_view(buckets@[k].version)),
            forall|k1: int, k2: int|
                0 <= k1 < k2 < buckets@.len() ==> opt_str_view((#[trigger] buckets@[k1]).version)
                    != opt_str_view((#[trigger] buckets@[k2]).version),
            forall|i: int|
                0 <= i < out@.len() ==> entry_for(all, (#[trigger] out@[i])@.version) == Some(
                    out@[i]@,
                ),
            forall|v: Option<Seq<char>>|
                #[trigger] entry_for(all, v) is Some ==> (exists|i: int|
                    0 <= i < out@.len() && out@[i]@.version == v) || (exists|k: int|
                    0 <= k < buckets@.len() && opt_str_view(buckets@[k].version) == v),
            forall|i: int, k: int|
                0 <= i < out@.len() && 0 <= k < buckets@.len() ==> (#[trigger] out@[i])@.version
                    != opt_str_view((#[trigger] buckets@[k]).version),
            distinct_versions(entry_views(out@)),
            sorted_entries(entry_views(out@)),
        decreases buckets@.len(),
    {
        let ghost bks0 = buckets@;
        let b = buckets.remove(0);
        let ghost vb = opt_str_view(b.version);
        let VerBucket { version, items: bitems } = b;
        let ghost out0 = out@;
        match try_to_entry(bitems, version) {
            Some(e) => {
                proof {
                    assert(entry_for(all, vb) == Some(e@));
                    lemma_entry_for_version(all, vb);
                    assert(e@.version == vb);
                }
                insert_sorted(&mut out, e);
                proof {
                    assert forall|i: int|
                        0 <= i < out@.len() implies entry_for(all, (#[trigger] out@[i])@.version)
                        == Some(out@[i]@) by {
                        if out@[i] != e {
                            let j = choose|j: int| 0 <= j < out0.len() && out0[j] == out@[i];
                            assert(entry_for(all, out0[j]@.version) == Some(out0[j]@));
                        }
                    }
                    assert forall|v: Option<Seq<char>>|
                        #[trigger] entry_for(all, v) is Some implies (exists|i: int|
                        0 <= i < out@.len() && out@[i]@.version == v) || (exists|k: int|
                        0 <= k < buckets@.len() && opt_str_view(buckets@[k].version) == v) by {
                        if v == vb {
                            let i = choose|i: int| 0 <= i < out@.len() && out@[i] == e;
                            assert(out@[i]@.version == v);
                        } else if exists|i: int| 0 <= i < out0.len() && out0[i]@.version == v {
                            let i0 = choose|i0: int|
                                0 <= i0 < out0.len() && out0[i0]@.version == v;
                            let i = choose|i: int| 0 <= i < out@.len() && out@[i] == out0[i0];
                            assert(out@[i]@.version == v);
                        } else if exists|k: int|
                            0 <= k < bks0.len() && opt_str_view(bks0[k].version) == v {
                            let k0 = choose|k0: int|
                                0 <= k0 < bks0.len() && opt_str_view(bks0[k0].version) == v;
                            assert(buckets@[k0 - 1] == bks0[k0]);
                        }
                    }
                    assert forall|i: int, k: int|
                        0 <= i < out@.len() && 0 <= k < buckets@.len() implies (
                        #[trigger] out@[i])@.version != opt_str_view(
                        (#[trigger] buckets@[k]).version,
                    ) by {
                        assert(buckets@[k] == bks0[k + 1]);
                        if out@[i] != e {
                            let j = choose|j: int| 0 <= j < out0.len() && out0[j] == out@[i];
                            assert(out0[j]@.version != opt_str_view(bks0[k + 1].version));
                        }
                    }
                }
            },
            None => {
                proof {
                    assert(entry_for(all, vb) is None);
                    assert forall|v: Option<Seq<char>>|
                        #[trigger] entry_for(all, v) is Some implies (exists|i: int|
                        0 <= i < out@.len() && out@[i]@.version == v) || (exists|k: int|
                        0 <= k < buckets@.len() && opt_str_view(buckets@[k].version) == v) by {
                        if exists|k: int|
                            0 <= k < bks0.len() && opt_str_view(bks0[k].version) == v {
                            let k0 = choose|k0: int|
                                0 <= k0 < bks0.len() && opt_str_view(bks0[k0].version) == v;
                            assert(v != vb);
                            assert(buckets@[k0 - 1] == bks0[k0]);
                        }
                    }
                    assert forall|i: int, k: int|
                        0 <= i < out@.len() && 0 <= k < buckets@.len() implies (
                        #[trigger] out@[i])@.version != opt_str_view(
                        (#[trigger] buckets@[k]).version,
                    ) by {
                        assert(buckets@[k] == bks0[k + 1]);
                    }
                }
            },
        }
    }
    out
}

/// Views of a sequence of path strings.
pub open spec fn path_views(ps: Seq<String>) -> Seq<Seq<char>> {
    ps.map_values(|p: String| p@)
}

/// The items that classifying each path in order yields, rejections dropped.
pub open spec fn classify_all(ps: Seq<Seq<char>>) -> Seq<ItemV>
    decreases ps.len(),
{
    if ps.len() == 0 {
        Seq::<ItemV>::empty()
    } else {
        classify_all(ps.drop_last()) + (match spec_classify(ps.last()) {
            Some(i) => seq![i],
            None => Seq::<ItemV>::empty(),
        })
    }
}

/// Every classified item comes from classifying one of the paths.
pub proof fn lemma_classify_all_membership(ps: Seq<Seq<char>>)
    ensures
        forall|j: int| 0 <= j < classify_all(ps).len() ==> exists|k: int|
            0 <= k < ps.len() && spec_classify(ps[k]) == Some(#[trigger] classify_all(ps)[j]),
    decreases ps.len(),
{
    if ps.len() > 0 {
        lemma_classify_all_membership(ps.drop_last());
        let ca = classify_all(ps);
        let ca0 = classify_all(ps.drop_last());
        assert forall|j: int| 0 <= j < ca.len() implies exists|k: int|
            0 <= k < ps.len() && spec_classify(ps[k]) == Some(#[trigger] ca[j]) by {
            if j < ca0.len() {
                let k = choose|k: int|
                    0 <= k < ps.drop_last().len() && spec_classify(ps.drop_last()[k]) == Some(
                        ca0[j],
                    );
                assert(spec_classify(ps[k]) == Some(ca[j]));
            } else {
                assert(spec_classify(ps[ps.len() - 1]) == Some(ca[j]));
            }
        }
    }
}

/// Scan a list of file paths and produce the ordered boot entries: classify
/// each path, bucket the classified items by version, keep the clean pairs,
/// and sort. Every path in an emitted entry is `/` followed by the basename
/// of one of the scanned paths.
pub fn discover_entries(paths: &Vec<String>) -> (r: Vec<Entry>)
    ensures
        forall|i: int|
            0 <= i < r@.len() ==> entry_for(
                classify_all(path_views(paths@)),
                (#[trigger] r@[i])@.version,
            ) == Some(r@[i]@),
        forall|v: Option<Seq<char>>|
            #[trigger] entry_for(classify_all(path_views(paths@)), v) is Some ==> exists|i: int|
                0 <= i < r@.len() && r@[i]@.version == v,
        distinct_versions(entry_views(r@)),
        sorted_entries(entry_views(r@)),
        forall|i: int|
            0 <= i < r@.len() ==> exists|k: int|
                0 <= k < paths@.len() && (#[trigger] r@[i])@.kernel == seq!['/']
                    + spec_basename(paths@[k]@),
        forall|i: int|
            0 <= i < r@.len() ==> exists|k: int|
                0 <= k < paths@.len() && (#[trigger] r@[i])@.initrd == seq!['/']
                    + spec_basename(paths@[k]@),
{
    let ghost pv = path_views(paths@);
    let mut items: Vec<Item> = Vec::new();
    let mut k: usize = 0;
    proof {
        assert(item_views(items@) =~= classify_all(pv.subrange(0, 0)));
    }
    while k < paths.len()
        invariant
            0 <= k <= paths@.len(),
            pv == path_views(paths@),
            item_views(items@) == classify_all(pv.subrange(0, k as int)),
        decreases paths@.len() - k,
    {
        let ghost items0 = items@;
        match classify(paths[k].as_str()) {
            Some(it) => {
                proof {
                    lemma_item_views_push(items0, it);
                }
                items.push(it);
            },
            None => {},
        }
        proof {
            let pre = pv.subrange(0, k as int);
            let cur = pv.subrange(0, k + 1);
            assert(cur.drop_last() =~= pre);
            assert(cur.last() == paths@[k as int]@);
            if spec_classify(pv[k as int]) is Some {
                assert(item_views(items@) =~= classify_all(pre) + seq![
                    spec_classify(pv[k as int])->0,
                ]);
            } else {
                assert(item_views(items@) =~= classify_all(pre) + Seq::<ItemV>::empty());
            }
        }
        k += 1;
    }
    proof {
        assert(pv.subrange(0, paths@.len() as int) =~= pv);
    }
    let ghost all = classify_all(pv);
    let r = convert_items(items);
    proof {
        lemma_classify_all_membership(pv);
        assert forall|i: int|
            0 <= i < r@.len() implies exists|k2: int|
            0 <= k2 < paths@.len() && (#[trigger] r@[i])@.kernel == seq!['/'] + spec_basename(
                paths@[k2]@,
            ) by {
            let v = r@[i]@.version;
            lemma_filter_ver_subset(all, v);
            let bucket = filter_ver(all, v);
            let kern = if bucket[0].kind == ItemKind::Initrd {
                bucket[1]
            } else {
                bucket[0]
            };
            assert(r@[i]@.kernel == kern.path);
            let j = choose|j: int| 0 <= j < all.len() && all[j] == kern;
            let k2 = choose|k2: int|
                0 <= k2 < pv.len() && spec_classify(pv[k2]) == Some(all[j]);
            assert(kern.path == seq!['/'] + spec_basename(pv[k2]));
            assert(r@[i]@.kernel == seq!['/'] + spec_basename(paths@[k2]@));
        }
        assert forall|i: int|
            0 <= i < r@.len() implies exists|k2: int|
            0 <= k2 < paths@.len() && (#[trigger] r@[i])@.initrd == seq!['/'] + spec_basename(
                paths@[k2]@,
            ) by {
            let v = r@[i]@.version;
            lemma_filter_ver_subset(all, v);
            let bucket = filter_ver(all, v);
            let ini = if bucket[0].kind == ItemKind::Initrd {
                bucket[0]
            } else {
                bucket[1]
            };
            assert(r@[i]@.initrd == ini.path);
            let j = choose|j: int| 0 <= j < all.len() && all[j] == ini;
            let k2 = choose|k2: int|
                0 <= k2 < pv.len() && spec_classify(pv[k2]) == Some(all[j]);
            assert(ini.path == seq!['/'] + spec_basename(pv[k2]));
            assert(r@[i]@.initrd == seq!['/'] + spec_basename(paths@[k2]@));
        }
    }
    r
}

} // verus!
