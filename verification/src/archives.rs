use vstd::prelude::*;

use crate::extract::{ArchiveToolAdapter, Extract, ExtractError};
use crate::passwords::PasswordDatabase;
use crate::text::{
    ascii_lowercase, dec_digits, dot_free, dot_free_all, format_padded, in_listing, is_ascii_digit,
    join_dots, join_dots_spec, lemma_dec_digits_are_digits, lemma_split_dots_segments_dot_free,
    lemma_split_lower_commutes, lemma_zero_padded_injective, listing_contains, lower_seq,
    split_dots, split_dots_spec, views_of, zero_pad,
};

verus! {

/// The archive formats this library understands, told apart by filename
/// suffix.
#[derive(Clone, Copy, PartialEq, Eq, Structural, Debug)]
pub enum ArchiveKind {
    RAR,
    P7Z,
}

/// One logical archive: the name it is labelled with, its volume files in
/// reading order (first volume first), and its format.
#[derive(Debug)]
pub struct Archive {
    pub basename: String,
    pub parts: Vec<String>,
    pub kind: ArchiveKind,
}

pub open spec fn is_kind_suffix(seg: Seq<char>) -> bool {
    seg == "rar"@ || seg == "7z"@
}

pub open spec fn kind_of_suffix(seg: Seq<char>) -> ArchiveKind {
    if seg == "rar"@ {
        ArchiveKind::RAR
    } else {
        ArchiveKind::P7Z
    }
}

/// A `part` segment that names the first volume: `part`, zero or more `0`s,
/// then a final `1`.
pub open spec fn is_first_part_infix(seg: Seq<char>) -> bool {
    &&& seg.len() >= 5
    &&& seg.subrange(0, 4) == "part"@
    &&& forall|i: int| 4 <= i < seg.len() - 1 ==> #[trigger] seg[i] == '0'
    &&& seg[seg.len() - 1] == '1'
}

/// A `part` segment with any volume number.
pub open spec fn is_part_marker(seg: Seq<char>) -> bool {
    &&& seg.len() >= 5
    &&& seg.subrange(0, 4) == "part"@
    &&& forall|i: int| 4 <= i < seg.len() ==> is_ascii_digit(#[trigger] seg[i])
}

/// A bare numeric segment that names the first volume: zero or more `0`s,
/// then a final `1`.
pub open spec fn is_first_part_plain(seg: Seq<char>) -> bool {
    &&& seg.len() >= 1
    &&& forall|i: int| 0 <= i < seg.len() - 1 ==> #[trigger] seg[i] == '0'
    &&& seg[seg.len() - 1] == '1'
}

/// The filename of volume `k`: the first volume's segments, kept in their
/// on-disk case, with the numbered slot replaced by `prefix` plus the
/// zero-padded volume number.
pub open spec fn volume_name(
    osegs: Seq<Seq<char>>,
    slot: int,
    prefix: Seq<char>,
    pad: nat,
    k: nat,
) -> Seq<char> {
    join_dots_spec(osegs.update(slot, prefix + zero_pad(dec_digits(k), pad)))
}

/// What detection decides from the filename alone, before volumes are
/// enumerated against the directory listing.
pub enum DetectPlan {
    /// No known suffix, or a later volume of a numbered set, which only its
    /// first volume may stand for.
    NotArchive,
    /// A standalone single-volume archive.
    Single { kind: ArchiveKind, basename: Seq<char> },
    /// The first volume of a numbered set: siblings are enumerated by
    /// renumbering the slot segment with the same zero padding.
    Multi { kind: ArchiveKind, slot: int, prefix: Seq<char>, pad: nat, basename: Seq<char> },
}

/// The detection decision for a filename.  `exact` says whether the given
/// name is byte-for-byte the on-disk name; a multi-volume set is only
/// accepted then, since its siblings are reconstructed from this very name.
pub open spec fn detect_plan(name: Seq<char>, exact: bool) -> DetectPlan {
    let fsegs = split_dots_spec(lower_seq(name));
    let osegs = split_dots_spec(name);
    let n = fsegs.len();
    if is_kind_suffix(fsegs[n - 1]) {
        let kind = kind_of_suffix(fsegs[n - 1]);
        if n == 1 {
            DetectPlan::Single { kind, basename: "unnamed"@ }
        } else if is_first_part_infix(fsegs[n - 2]) {
            if exact {
                DetectPlan::Multi {
                    kind,
                    slot: n - 2,
                    prefix: "part"@,
                    pad: (fsegs[n - 2].len() - 4) as nat,
                    basename: join_dots_spec(osegs.take(n - 2)),
                }
            } else {
                DetectPlan::NotArchive
            }
        } else if is_part_marker(fsegs[n - 2]) {
            DetectPlan::NotArchive
        } else {
            DetectPlan::Single { kind, basename: join_dots_spec(fsegs.take(n - 1)) }
        }
    } else if n >= 2 && is_kind_suffix(fsegs[n - 2]) && is_first_part_plain(fsegs[n - 1]) {
        if exact {
            DetectPlan::Multi {
                kind: kind_of_suffix(fsegs[n - 2]),
                slot: n - 1,
                prefix: Seq::empty(),
                pad: fsegs[n - 1].len(),
                basename: join_dots_spec(osegs.take(n - 2)),
            }
        } else {
            DetectPlan::NotArchive
        }
    } else {
        DetectPlan::NotArchive
    }
}

// Detection laws ---------------------------------------------------------------

/// The lower-cased segments of a filename, which detection matches against.
pub open spec fn folded_segments(name: Seq<char>) -> Seq<Seq<char>> {
    split_dots_spec(lower_seq(name))
}

/// A first-volume `part` segment is in particular a `part` marker.
pub proof fn lemma_first_part_is_marker(seg: Seq<char>)
    requires
        is_first_part_infix(seg),
    ensures
        is_part_marker(seg),
{
    assert forall|i: int| 4 <= i < seg.len() implies is_ascii_digit(#[trigger] seg[i]) by {
        if i < seg.len() - 1 {
            assert(seg[i] == '0');
        } else {
            assert(seg[i] == '1');
        }
    }
}

/// Law: a filename `<name>.<suffix>` with a known archive suffix, whose
/// segment before the suffix is no `part`-numbered segment, is detected as a
/// single-volume archive of that kind.
pub proof fn lemma_single_volume_detected(name: Seq<char>, exact: bool)
    requires
        folded_segments(name).len() >= 2,
        is_kind_suffix(folded_segments(name).last()),
        !is_part_marker(folded_segments(name)[folded_segments(name).len() - 2]),
    ensures
        detect_plan(name, exact) == (DetectPlan::Single {
            kind: kind_of_suffix(folded_segments(name).last()),
            basename: join_dots_spec(
                folded_segments(name).take(folded_segments(name).len() - 1),
            ),
        }),
{
    let fsegs = folded_segments(name);
    let n = fsegs.len();
    assert(!is_first_part_infix(fsegs[n - 2])) by {
        if is_first_part_infix(fsegs[n - 2]) {
            lemma_first_part_is_marker(fsegs[n - 2]);
        }
    }
}

/// Law: only the first volume of a numbered set triggers multi-volume
/// detection.  A filename whose segment before the suffix numbers a later
/// volume (`part2`, `part03`, …) is rejected outright; it can only be picked
/// up through its set's first volume.
pub proof fn lemma_later_volume_rejected(name: Seq<char>, exact: bool)
    requires
        folded_segments(name).len() >= 2,
        is_kind_suffix(folded_segments(name).last()),
        is_part_marker(folded_segments(name)[folded_segments(name).len() - 2]),
        !is_first_part_infix(folded_segments(name)[folded_segments(name).len() - 2]),
    ensures
        detect_plan(name, exact) == DetectPlan::NotArchive,
{
}

/// Law: the first volume of an infix-numbered set opens a multi-volume
/// detection whose zero padding is the digit width of that first volume —
/// but only when the filename is known byte-for-byte.
pub proof fn lemma_first_volume_starts_set(name: Seq<char>)
    requires
        folded_segments(name).len() >= 2,
        is_kind_suffix(folded_segments(name).last()),
        is_first_part_infix(folded_segments(name)[folded_segments(name).len() - 2]),
    ensures
        detect_plan(name, true) == (DetectPlan::Multi {
            kind: kind_of_suffix(folded_segments(name).last()),
            slot: folded_segments(name).len() - 2,
            prefix: "part"@,
            pad: (folded_segments(name)[folded_segments(name).len() - 2].len() - 4) as nat,
            basename: join_dots_spec(
                split_dots_spec(name).take(folded_segments(name).len() - 2),
            ),
        }),
        detect_plan(name, false) == DetectPlan::NotArchive,
{
}

// Volume names are distinct ---------------------------------------------------

/// Dot-free segment lists of equal shape with the same join are equal.
pub proof fn lemma_join_dots_injective(a: Seq<Seq<char>>, b: Seq<Seq<char>>)
    requires
        a.len() == b.len(),
        a.len() >= 1,
        dot_free_all(a),
        dot_free_all(b),
        join_dots_spec(a) == join_dots_spec(b),
    ensures
        a =~~= b,
    decreases a.len(),
{
    if a.len() == 1 {
        assert(a =~~= seq![a[0]]);
        assert(b =~~= seq![b[0]]);
    } else {
        let ja = join_dots_spec(a);
        let jb = join_dots_spec(b);
        assert(ja == a[0] + seq!['.'] + join_dots_spec(a.skip(1)));
        assert(jb == b[0] + seq!['.'] + join_dots_spec(b.skip(1)));
        assert(dot_free(a[0]));
        assert(dot_free(b[0]));
        let la = a[0].len() as int;
        let lb = b[0].len() as int;
        assert(ja[la] == '.');
        assert(jb[lb] == '.');
        assert(la == lb) by {
            if la < lb {
                assert(jb[la] == b[0][la]);
                assert(b[0][la] != '.');
            } else if lb < la {
                assert(ja[lb] == a[0][lb]);
                assert(a[0][lb] != '.');
            }
        }
        assert forall|i: int| 0 <= i < la implies a[0][i] == b[0][i] by {
            assert(ja[i] == a[0][i]);
            assert(jb[i] == b[0][i]);
        }
        assert(a[0] =~= b[0]);
        assert forall|i: int| 0 <= i < join_dots_spec(a.skip(1)).len() implies join_dots_spec(
            a.skip(1),
        )[i] == join_dots_spec(b.skip(1))[i] by {
            assert(ja[la + 1 + i] == join_dots_spec(a.skip(1))[i]);
            assert(jb[lb + 1 + i] == join_dots_spec(b.skip(1))[i]);
        }
        assert(join_dots_spec(a.skip(1)) =~= join_dots_spec(b.skip(1)));
        assert(dot_free_all(a.skip(1))) by {
            assert(forall|i: int| 0 <= i < a.skip(1).len() ==> a.skip(1)[i] == a[i + 1]);
        }
        assert(dot_free_all(b.skip(1))) by {
            assert(forall|i: int| 0 <= i < b.skip(1).len() ==> b.skip(1)[i] == b[i + 1]);
        }
        lemma_join_dots_injective(a.skip(1), b.skip(1));
        assert(a =~~= b) by {
            assert(forall|i: int| 1 <= i < a.len() ==> a[i] == a.skip(1)[i - 1] && b[i] == b.skip(
                1,
            )[i - 1]);
        }
    }
}

/// Different volume numbers give different volume filenames.
pub proof fn lemma_volume_name_injective(
    osegs: Seq<Seq<char>>,
    slot: int,
    prefix: Seq<char>,
    pad: nat,
    k1: nat,
    k2: nat,
)
    requires
        0 <= slot < osegs.len(),
        dot_free_all(osegs),
        dot_free(prefix),
        volume_name(osegs, slot, prefix, pad, k1) == volume_name(osegs, slot, prefix, pad, k2),
    ensures
        k1 == k2,
{
    let p1 = prefix + zero_pad(dec_digits(k1), pad);
    let p2 = prefix + zero_pad(dec_digits(k2), pad);
    let u1 = osegs.update(slot, p1);
    let u2 = osegs.update(slot, p2);
    lemma_dec_digits_are_digits(k1);
    lemma_dec_digits_are_digits(k2);
    assert(dot_free(p1)) by {
        assert(forall|j: int|
            0 <= j < zero_pad(dec_digits(k1), pad).len() ==> #[trigger] zero_pad(
                dec_digits(k1),
                pad,
            )[j] != '.');
    }
    assert(dot_free(p2)) by {
        assert(forall|j: int|
            0 <= j < zero_pad(dec_digits(k2), pad).len() ==> #[trigger] zero_pad(
                dec_digits(k2),
                pad,
            )[j] != '.');
    }
    assert(dot_free_all(u1)) by {
        assert(forall|i: int| 0 <= i < u1.len() && i != slot ==> u1[i] == osegs[i]);
    }
    assert(dot_free_all(u2)) by {
        assert(forall|i: int| 0 <= i < u2.len() && i != slot ==> u2[i] == osegs[i]);
    }
    lemma_join_dots_injective(u1, u2);
    assert(u1[slot] == u2[slot]);
    assert(zero_pad(dec_digits(k1), pad) =~= zero_pad(dec_digits(k2), pad)) by {
        assert(forall|j: int|
            0 <= j < zero_pad(dec_digits(k1), pad).len() ==> p1[prefix.len() + j] == zero_pad(
                dec_digits(k1),
                pad,
            )[j]);
        assert(forall|j: int|
            0 <= j < zero_pad(dec_digits(k2), pad).len() ==> p2[prefix.len() + j] == zero_pad(
                dec_digits(k2),
                pad,
            )[j]);
    }
    lemma_zero_padded_injective(k1, k2, pad);
}

// Executable segment tests ----------------------------------------------------

fn seg_starts_with_part(seg: &String, len: usize) -> (r: bool)
    requires
        len == seg@.len(),
        len >= 4,
    ensures
        r == (seg@.subrange(0, 4) == "part"@),
{
    proof {
        reveal_strlit("part");
    }
    let c0 = seg.as_str().get_char(0);
    let c1 = seg.as_str().get_char(1);
    let c2 = seg.as_str().get_char(2);
    let c3 = seg.as_str().get_char(3);
    if c0 == 'p' && c1 == 'a' && c2 == 'r' && c3 == 't' {
        proof {
            assert(seg@.subrange(0, 4) =~= "part"@);
        }
        true
    } else {
        proof {
            if seg@.subrange(0, 4) == "part"@ {
                assert(seg@[0] == "part"@[0]);
                assert(seg@[1] == "part"@[1]);
                assert(seg@[2] == "part"@[2]);
                assert(seg@[3] == "part"@[3]);
            }
        }
        false
    }
}

fn seg_is_first_part_infix(seg: &String) -> (r: bool)
    ensures
        r == is_first_part_infix(seg@),
{
    let len = seg.as_str().unicode_len();
    if len < 5 {
        return false;
    }
    if !seg_starts_with_part(seg, len) {
        return false;
    }
    let mut i: usize = 4;
    while i < len - 1
        invariant
            4 <= i <= len - 1,
            len == seg@.len(),
            5 <= len,
            forall|k: int| 4 <= k < i ==> #[trigger] seg@[k] == '0',
        decreases len - 1 - i,
    {
        if seg.as_str().get_char(i) != '0' {
            return false;
        }
        i = i + 1;
    }
    seg.as_str().get_char(len - 1) == '1'
}

fn seg_is_part_marker(seg: &String) -> (r: bool)
    ensures
        r == is_part_marker(seg@),
{
    let len = seg.as_str().unicode_len();
    if len < 5 {
        return false;
    }
    if !seg_starts_with_part(seg, len) {
        return false;
    }
    let mut i: usize = 4;
    while i < len
        invariant
            4 <= i <= len,
            len == seg@.len(),
            5 <= len,
            forall|k: int| 4 <= k < i ==> is_ascii_digit(#[trigger] seg@[k]),
        decreases len - i,
    {
        let c = seg.as_str().get_char(i);
        if !('0' <= c && c <= '9') {
            return false;
        }
        i = i + 1;
    }
    true
}

fn seg_is_first_part_plain(seg: &String) -> (r: bool)
    ensures
        r == is_first_part_plain(seg@),
{
    let len = seg.as_str().unicode_len();
    if len < 1 {
        return false;
    }
    let mut i: usize = 0;
    while i < len - 1
        invariant
            0 <= i <= len - 1,
            len == seg@.len(),
            1 <= len,
            forall|k: int| 0 <= k < i ==> #[trigger] seg@[k] == '0',
        decreases len - 1 - i,
    {
        if seg.as_str().get_char(i) != '0' {
            return false;
        }
        i = i + 1;
    }
    seg.as_str().get_char(len - 1) == '1'
}

// Building sibling names -------------------------------------------------------

/// The first `count` segments, copied.
fn copy_prefix(segs: &Vec<String>, count: usize) -> (r: Vec<String>)
    requires
        count <= segs@.len(),
    ensures
        views_of(r@) =~= views_of(segs@).take(count as int),
{
    let mut r: Vec<String> = Vec::new();
    let mut i: usize = 0;
    while i < count
        invariant
            i <= count <= segs@.len(),
            views_of(r@) =~= views_of(segs@).take(i as int),
        decreases count - i,
    {
        let piece = segs[i].clone();
        r.push(piece);
        proof {
            assert(views_of(r@) =~= views_of(r@.drop_last()).push(r@.last()@));
            assert(views_of(segs@).take(i + 1 as int) =~= views_of(segs@).take(i as int).push(
                segs@[i as int]@,
            ));
        }
        i = i + 1;
    }
    r
}

/// The segment list with one slot replaced.
fn with_slot(segs: &Vec<String>, slot: usize, piece: String) -> (r: Vec<String>)
    requires
        slot < segs@.len(),
    ensures
        views_of(r@) =~= views_of(segs@).update(slot as int, piece@),
{
    let mut r: Vec<String> = Vec::new();
    let mut i: usize = 0;
    while i < segs.len()
        invariant
            i <= segs@.len(),
            slot < segs@.len(),
            views_of(r@) =~= views_of(segs@).update(slot as int, piece@).take(i as int),
        decreases segs@.len() - i,
    {
        if i == slot {
            let p = piece.clone();
            r.push(p);
        } else {
            let p = segs[i].clone();
            r.push(p);
        }
        proof {
            let updated = views_of(segs@).update(slot as int, piece@);
            assert(views_of(r@) =~= views_of(r@.drop_last()).push(r@.last()@));
            assert(updated.take(i + 1 as int) =~= updated.take(i as int).push(updated[i as int]));
        }
        i = i + 1;
    }
    proof {
        assert(views_of(segs@).update(slot as int, piece@).take(segs@.len() as int) =~= views_of(
            segs@,
        ).update(slot as int, piece@));
    }
    r
}

/// Writes the filename of volume `k` of a numbered set.
fn volume_name_exec(
    osegs: &Vec<String>,
    slot: usize,
    prefix_is_part: bool,
    pad: usize,
    k: u128,
) -> (r: String)
    requires
        slot < osegs@.len(),
    ensures
        r@ == volume_name(
            views_of(osegs@),
            slot as int,
            if prefix_is_part {
                "part"@
            } else {
                Seq::<char>::empty()
            },
            pad as nat,
            k as nat,
        ),
{
    let num = format_padded(k, pad);
    let piece = if prefix_is_part {
        let mut p = String::from_str("part");
        p.append(num.as_str());
        p
    } else {
        proof {
            assert(Seq::<char>::empty() + num@ =~= num@);
        }
        num
    };
    let modified = with_slot(osegs, slot, piece);
    join_dots(&modified)
}

/// Walks the numbered siblings of the first volume: volume 2, 3, … are added
/// while their reconstructed names are present in the listing; enumeration
/// stops at the first gap.
fn enumerate_volumes(
    filename: &String,
    osegs: &Vec<String>,
    slot: usize,
    prefix_is_part: bool,
    pad: usize,
    listing: &Vec<String>,
) -> (parts: Vec<String>)
    requires
        slot < osegs@.len(),
        views_of(osegs@) == split_dots_spec(filename@),
        in_listing(listing@, filename@),
    ensures
        parts@.len() >= 1,
        parts@[0]@ == filename@,
        forall|i: int|
            1 <= i < parts@.len() ==> #[trigger] parts@[i]@ == volume_name(
                split_dots_spec(filename@),
                slot as int,
                if prefix_is_part {
                    "part"@
                } else {
                    Seq::<char>::empty()
                },
                pad as nat,
                (i + 1) as nat,
            ) && in_listing(listing@, parts@[i]@),
        !in_listing(
            listing@,
            volume_name(
                split_dots_spec(filename@),
                slot as int,
                if prefix_is_part {
                    "part"@
                } else {
                    Seq::<char>::empty()
                },
                pad as nat,
                (parts@.len() + 1) as nat,
            ),
        ),
{
    let ghost pfx: Seq<char> = if prefix_is_part {
        "part"@
    } else {
        Seq::<char>::empty()
    };
    proof {
        lemma_split_dots_segments_dot_free(filename@);
        if prefix_is_part {
            reveal_strlit("part");
            assert(dot_free("part"@)) by {
                assert("part"@.len() == 4);
                assert("part"@[0] == 'p' && "part"@[1] == 'a' && "part"@[2] == 'r' && "part"@[3]
                    == 't');
            }
        }
    }
    let mut parts: Vec<String> = Vec::new();
    parts.push(filename.clone());
    let mut k: u128 = 2;
    let mut candidate = volume_name_exec(osegs, slot, prefix_is_part, pad, k);
    let mut present = listing_contains(listing, &candidate);
    while present
        invariant
            slot < osegs@.len(),
            views_of(osegs@) == split_dots_spec(filename@),
            dot_free_all(views_of(osegs@)),
            dot_free(pfx),
            pfx == if prefix_is_part {
                "part"@
            } else {
                Seq::<char>::empty()
            },
            parts@.len() >= 1,
            k == parts@.len() + 1,
            parts@[0]@ == filename@,
            candidate@ == volume_name(views_of(osegs@), slot as int, pfx, pad as nat, k as nat),
            present == in_listing(listing@, candidate@),
            forall|i: int|
                1 <= i < parts@.len() ==> #[trigger] parts@[i]@ == volume_name(
                    views_of(osegs@),
                    slot as int,
                    pfx,
                    pad as nat,
                    (i + 1) as nat,
                ) && in_listing(listing@, parts@[i]@),
            parts@.len() <= listing@.len() + 1,
        decreases listing@.len() + 1 - parts@.len(),
    {
        parts.push(candidate);
        proof {
            // the freshly added volumes carry pairwise different numbers, so
            // their names are pairwise different and the listing bounds them
            let names = Seq::new((parts@.len() - 1) as nat, |i: int| parts@[i + 1]@);
            assert forall|i: int, j: int| 0 <= i < j < names.len() implies names[i] != names[j] by {
                if names[i] == names[j] {
                    lemma_volume_name_injective(
                        views_of(osegs@),
                        slot as int,
                        pfx,
                        pad as nat,
                        (i + 2) as nat,
                        (j + 2) as nat,
                    );
                }
            }
            assert(names.no_duplicates());
            assert(forall|i: int|
                0 <= i < names.len() ==> in_listing(listing@, #[trigger] names[i]));
            crate::text::lemma_distinct_names_fit(listing@, names);
        }
        let l = listing.len();
        proof {
            assert(parts@.len() <= l + 1);
        }
        k = k + 1;
        candidate = volume_name_exec(osegs, slot, prefix_is_part, pad, k);
        present = listing_contains(listing, &candidate);
    }
    parts
}

/// Decides whether `filename` names an archive, and if so which files make it
/// up.  The directory listing stands for the existence checks: a volume
/// exists exactly when its name occurs in `listing`.  `name_is_exact` says
/// whether `filename` is byte-for-byte the on-disk name; a lossily decoded
/// name must pass `false`, which rejects multi-volume sets whose siblings
/// could not be reconstructed reliably.
pub fn detect_archive(filename: &String, name_is_exact: bool, listing: &Vec<String>) -> (r: Option<
    Archive,
>)
    requires
        in_listing(listing@, filename@),
    ensures
        match detect_plan(filename@, name_is_exact) {
            DetectPlan::NotArchive => r is None,
            DetectPlan::Single { kind, basename } => match r {
                Some(a) => a.kind == kind && a.basename@ == basename && a.parts@.len() == 1
                    && a.parts@[0]@ == filename@,
                None => false,
            },
            DetectPlan::Multi { kind, slot, prefix, pad, basename } => match r {
                Some(a) => {
                    &&& a.kind == kind
                    &&& a.basename@ == basename
                    &&& a.parts@.len() >= 1
                    &&& a.parts@[0]@ == filename@
                    &&& forall|i: int|
                        1 <= i < a.parts@.len() ==> #[trigger] a.parts@[i]@ == volume_name(
                            split_dots_spec(filename@),
                            slot,
                            prefix,
                            pad,
                            (i + 1) as nat,
                        ) && in_listing(listing@, a.parts@[i]@)
                    &&& !in_listing(
                        listing@,
                        volume_name(
                            split_dots_spec(filename@),
                            slot,
                            prefix,
                            pad,
                            (a.parts@.len() + 1) as nat,
                        ),
                    )
                },
                None => false,
            },
        },
{
    let ghost fview = split_dots_spec(lower_seq(filename@));
    let folded = ascii_lowercase(filename);
    let fsegs = split_dots(&folded);
    let n = fsegs.len();
    proof {
        assert(views_of(fsegs@) == fview);
        assert(fsegs@[n - 1]@ == fview[n - 1]);
    }
    match ArchiveKind::from_suffix(&fsegs[n - 1]) {
        Some(kind) => {
            if n == 1 {
                let mut parts: Vec<String> = Vec::new();
                parts.push(filename.clone());
                return Archive::create(String::from_str("unnamed"), parts, kind);
            }
            proof {
                assert(fsegs@[n - 2]@ == fview[n - 2]);
            }
            if seg_is_first_part_infix(&fsegs[n - 2]) {
                if !name_is_exact {
                    return None;
                }
                let pad = fsegs[n - 2].as_str().unicode_len() - 4;
                let osegs = split_dots(filename);
                proof {
                    lemma_split_lower_commutes(filename@);
                    assert(views_of(osegs@).len() == n);
                }
                let m = osegs.len();
                proof {
                    assert(m == n);
                }
                let basename_segs = copy_prefix(&osegs, n - 2);
                let basename = join_dots(&basename_segs);
                let parts = enumerate_volumes(filename, &osegs, n - 2, true, pad, listing);
                proof {
                    assert(views_of(osegs@).take(n - 2 as int) =~= split_dots_spec(
                        filename@,
                    ).take(n - 2));
                }
                return Archive::create(basename, parts, kind);
            }
            if seg_is_part_marker(&fsegs[n - 2]) {
                return None;
            }
            let basename_segs = copy_prefix(&fsegs, n - 1);
            let basename = join_dots(&basename_segs);
            let mut parts: Vec<String> = Vec::new();
            parts.push(filename.clone());
            proof {
                assert(views_of(fsegs@).take(n - 1 as int) =~= fview.take(n - 1));
            }
            return Archive::create(basename, parts, kind);
        },
        None => {
            if n < 2 {
                return None;
            }
            proof {
                assert(fsegs@[n - 2]@ == fview[n - 2]);
            }
            match ArchiveKind::from_suffix(&fsegs[n - 2]) {
                None => None,
                Some(kind) => {
                    if !seg_is_first_part_plain(&fsegs[n - 1]) {
                        return None;
                    }
                    if !name_is_exact {
                        return None;
                    }
                    let pad = fsegs[n - 1].as_str().unicode_len();
                    let osegs = split_dots(filename);
                    proof {
                        lemma_split_lower_commutes(filename@);
                        assert(views_of(osegs@).len() == n);
                    }
                    let m = osegs.len();
                    proof {
                        assert(m == n);
                    }
                    let basename_segs = copy_prefix(&osegs, n - 2);
                    let basename = join_dots(&basename_segs);
                    let parts = enumerate_volumes(filename, &osegs, n - 1, false, pad, listing);
                    proof {
                        assert(views_of(osegs@).take(n - 2 as int) =~= split_dots_spec(
                            filename@,
                        ).take(n - 2));
                    }
                    Archive::create(basename, parts, kind)
                },
            }
        },
    }
}

impl ArchiveKind {
    /// The archive kind a lower-cased filename suffix stands for.
    pub fn from_suffix(suffix: &String) -> (r: Option<ArchiveKind>)
        ensures
            r == if is_kind_suffix(suffix@) {
                Some(kind_of_suffix(suffix@))
            } else {
                None::<ArchiveKind>
            },
    {
        if suffix.eq(&String::from_str("rar")) {
            Some(ArchiveKind::RAR)
        } else if suffix.eq(&String::from_str("7z")) {
            Some(ArchiveKind::P7Z)
        } else {
            None
        }
    }
}

impl Archive {
    /// An archive always has its first volume.
    pub open spec fn wf(&self) -> bool {
        self.parts@.len() >= 1
    }

    pub fn create(basename: String, parts: Vec<String>, kind: ArchiveKind) -> (r: Option<Archive>)
        ensures
            match r {
                Some(a) => a.basename == basename && a.parts == parts && a.kind == kind,
                None => false,
            },
    {
        Some(Archive { basename, parts, kind })
    }

    /// Runs password discovery and extraction for this archive through the
    /// injected tool adapter, writing into `to`.
    pub fn extract<A: ArchiveToolAdapter>(
        &self,
        to: &String,
        pdb: &PasswordDatabase,
        tool: &A,
    ) -> (r: Result<Extract, ExtractError>)
        requires
            self.wf(),
            pdb.wf(),
        ensures
            match r {
                Ok(e) => pdb@.contains(e.password@),
                Err(e) => !(e matches ExtractError::Encoding),
            },
    {
        crate::extract::extract(&self.parts[0], to, pdb, tool)
    }
}

} // verus!
