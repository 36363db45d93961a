//! Editing `.gitmodules`: removing the stanza of the absorbed submodule.
//!
//! The file is treated as lines of bytes. A header line is one that, after
//! stripping its line terminator, starts with `[` and ends with `]`; the
//! section's name is what stands between the brackets. Removing the section
//! `submodule "<basename>"` drops every matching header line together with
//! the lines that follow it up to the next header; every other byte of the
//! file is preserved exactly. If only blank lines remain, the file is
//! deleted.

use vstd::prelude::*;

verus! {

pub const NL: u8 = 10;

pub const CR: u8 = 13;

pub const LBRACKET: u8 = 91;

pub const RBRACKET: u8 = 93;

/// The views of a list of byte lines.
pub open spec fn views_of(ls: Seq<Vec<u8>>) -> Seq<Seq<u8>> {
    ls.map_values(|v: Vec<u8>| v@)
}

/// The first position at or after `i` holding a newline, or the length.
pub open spec fn find_nl(s: Seq<u8>, i: int) -> int
    recommends
        0 <= i <= s.len(),
    decreases s.len() - i,
{
    if i < 0 || i >= s.len() {
        s.len() as int
    } else if s[i] == NL {
        i
    } else {
        find_nl(s, i + 1)
    }
}

/// `find_nl` answers the position of the first newline.
pub proof fn lemma_find_nl(s: Seq<u8>, i: int)
    requires
        0 <= i <= s.len(),
    ensures
        i <= find_nl(s, i) <= s.len(),
        find_nl(s, i) < s.len() ==> s[find_nl(s, i)] == NL,
        forall|j: int| i <= j < find_nl(s, i) ==> s[j] != NL,
    decreases s.len() - i,
{
    if i < s.len() && s[i] != NL {
        lemma_find_nl(s, i + 1);
    }
}

/// If nothing before `m` is a newline and `m` is one (or the end), the first
/// newline search answers `m`.
pub proof fn lemma_find_nl_eq(s: Seq<u8>, i: int, m: int)
    requires
        0 <= i <= m <= s.len(),
        m < s.len() ==> s[m] == NL,
        forall|j: int| i <= j < m ==> s[j] != NL,
    ensures
        find_nl(s, i) == m,
    decreases m - i,
{
    if i < m {
        lemma_find_nl_eq(s, i + 1, m);
    }
}

/// The lines of a byte string. Each line keeps its terminating newline; the
/// last line may lack one. Concatenating the lines gives the string back.
pub open spec fn lines_of(s: Seq<u8>) -> Seq<Seq<u8>>
    decreases s.len(),
{
    if s.len() == 0 {
        Seq::empty()
    } else {
        let k = find_nl(s, 0);
        if !(0 <= k < s.len()) {
            seq![s]
        } else {
            seq![s.subrange(0, k + 1)] + lines_of(s.subrange(k + 1, s.len() as int))
        }
    }
}

/// A line without its terminator: a trailing newline is dropped, then a
/// trailing carriage return.
pub open spec fn strip_eol(l: Seq<u8>) -> Seq<u8> {
    let a = if l.len() > 0 && l.last() == NL {
        l.drop_last()
    } else {
        l
    };
    if a.len() > 0 && a.last() == CR {
        a.drop_last()
    } else {
        a
    }
}

/// A section header: brackets around a name.
pub open spec fn is_header(l: Seq<u8>) -> bool {
    let t = strip_eol(l);
    t.len() >= 2 && t[0] == LBRACKET && t.last() == RBRACKET
}

/// The name between the brackets of a header line.
pub open spec fn header_name(l: Seq<u8>) -> Seq<u8>
    recommends
        is_header(l),
{
    let t = strip_eol(l);
    t.subrange(1, t.len() - 1)
}

/// The section name of the absorbed submodule: `submodule "<basename>"`.
pub open spec fn section_for(basename: Seq<u8>) -> Seq<u8> {
    seq![115u8, 117u8, 98u8, 109u8, 111u8, 100u8, 117u8, 108u8, 101u8, 32u8, 34u8] + basename
        + seq![34u8]
}

/// The file name `.gitmodules`.
pub open spec fn gitmodules_name() -> Seq<u8> {
    seq![46u8, 103u8, 105u8, 116u8, 109u8, 111u8, 100u8, 117u8, 108u8, 101u8, 115u8]
}

/// Some line opens the targeted section.
pub open spec fn has_target(lines: Seq<Seq<u8>>, target: Seq<u8>) -> bool {
    exists|i: int|
        0 <= i < lines.len() && is_header(#[trigger] lines[i]) && header_name(lines[i]) == target
}

/// The lines with every targeted section removed. `removing` says whether
/// the current position stands inside a targeted section.
pub open spec fn edit_lines(lines: Seq<Seq<u8>>, target: Seq<u8>, removing: bool) -> Seq<Seq<u8>>
    decreases lines.len(),
{
    if lines.len() == 0 {
        Seq::empty()
    } else {
        let l = lines[0];
        if is_header(l) {
            if header_name(l) == target {
                edit_lines(lines.drop_first(), target, true)
            } else {
                seq![l] + edit_lines(lines.drop_first(), target, false)
            }
        } else {
            if removing {
                edit_lines(lines.drop_first(), target, true)
            } else {
                seq![l] + edit_lines(lines.drop_first(), target, removing)
            }
        }
    }
}

/// Only whitespace.
pub open spec fn is_blank(l: Seq<u8>) -> bool {
    forall|j: int| 0 <= j < l.len() ==> (l[j] == 32 || l[j] == 9 || l[j] == NL || l[j] == CR)
}

pub open spec fn all_blank(lines: Seq<Seq<u8>>) -> bool {
    forall|i: int| 0 <= i < lines.len() ==> is_blank(#[trigger] lines[i])
}

/// No line of the edited file opens the targeted section.
pub proof fn lemma_edit_removes_target(lines: Seq<Seq<u8>>, target: Seq<u8>, removing: bool)
    ensures
        !has_target(edit_lines(lines, target, removing), target),
    decreases lines.len(),
{
    if lines.len() > 0 {
        let l = lines[0];
        let rest_removing = if is_header(l) {
            header_name(l) == target
        } else {
            removing
        };
        lemma_edit_removes_target(lines.drop_first(), target, rest_removing);
        let ed = edit_lines(lines, target, removing);
        if has_target(ed, target) {
            let i = choose|i: int|
                0 <= i < ed.len() && is_header(#[trigger] ed[i]) && header_name(ed[i]) == target;
            if is_header(l) && header_name(l) == target {
            } else if !is_header(l) && removing {
            } else {
                let tail = edit_lines(lines.drop_first(), target, rest_removing);
                if i == 0 {
                    assert(ed[0] == l);
                } else {
                    assert(ed[i] == tail[i - 1]);
                    assert(has_target(tail, target));
                }
            }
        }
    }
}

/// Splitting a byte string into lines and concatenating them gives the
/// string back.
pub proof fn lemma_lines_flatten_roundtrip(s: Seq<u8>)
    ensures
        lines_of(s).flatten() == s,
    decreases s.len(),
{
    if s.len() == 0 {
        assert(lines_of(s).flatten() =~= s);
    } else {
        let k = find_nl(s, 0);
        lemma_find_nl(s, 0);
        if !(0 <= k < s.len()) {
            let ls = seq![s];
            assert(ls.drop_first() =~= Seq::<Seq<u8>>::empty());
            assert(ls.flatten() == s + Seq::<Seq<u8>>::empty().flatten());
            assert(ls.flatten() =~= s);
        } else {
            let l1 = s.subrange(0, k + 1);
            let rest = s.subrange(k + 1, s.len() as int);
            lemma_lines_flatten_roundtrip(rest);
            let ls = seq![l1] + lines_of(rest);
            assert(ls.first() == l1);
            assert(ls.drop_first() =~= lines_of(rest));
            assert(ls.flatten() == l1 + lines_of(rest).flatten());
            assert(ls.flatten() =~= s);
        }
    }
}

/// What becomes of the `.gitmodules` file: kept as it is, deleted, or
/// replaced by new content.
pub enum BlobEdit {
    Unchanged,
    Delete,
    Replace(Vec<u8>),
}

/// Copy `data[a .. b]`.
pub fn copy_range(data: &Vec<u8>, a: usize, b: usize) -> (r: Vec<u8>)
    requires
        a <= b <= data@.len(),
    ensures
        r@ == data@.subrange(a as int, b as int),
{
    let mut r: Vec<u8> = Vec::new();
    let mut i: usize = a;
    while i < b
        invariant
            a <= i <= b,
            r@.len() == i - a,
            forall|j: int| 0 <= j < i - a ==> r@[j] == data@[a + j],
        decreases b - i,
    {
        r.push(data[i]);
        i += 1;
    }
    proof {
        assert(r@ =~= data@.subrange(a as int, b as int));
    }
    r
}

/// Split a byte string into its lines.
pub fn split_lines(data: &Vec<u8>) -> (r: Vec<Vec<u8>>)
    ensures
        views_of(r@) == lines_of(data@),
{
    let mut r: Vec<Vec<u8>> = Vec::new();
    let mut start: usize = 0;
    let mut i: usize = 0;
    let n = data.len();
    proof {
        assert(data@.skip(0) =~= data@);
        assert(views_of(r@) + lines_of(data@.skip(0)) =~= lines_of(data@));
    }
    while i < n
        invariant
            start <= i <= n,
            n == data@.len(),
            lines_of(data@) == views_of(r@) + lines_of(data@.skip(start as int)),
            forall|j: int| start <= j < i ==> data@[j] != NL,
        decreases n - i,
    {
        if data[i] == NL {
            let line = copy_range(data, start, i + 1);
            let ghost old_r = r@;
            r.push(line);
            proof {
                let suffix = data@.skip(start as int);
                assert forall|j: int| 0 <= j < i - start implies suffix[j] != NL by {
                    assert(suffix[j] == data@[start + j]);
                }
                assert(suffix[i - start] == NL);
                lemma_find_nl_eq(suffix, 0, i - start);
                assert(lines_of(suffix) == seq![suffix.subrange(0, i - start + 1)] + lines_of(
                    suffix.subrange(i - start + 1, suffix.len() as int),
                ));
                assert(suffix.subrange(0, i - start + 1) =~= data@.subrange(
                    start as int,
                    i + 1,
                ));
                assert(suffix.subrange(i - start + 1, suffix.len() as int) =~= data@.skip(i + 1));
                assert(views_of(r@) =~= views_of(old_r).push(line@));
                assert(views_of(r@) + lines_of(data@.skip(i + 1)) =~= lines_of(data@));
            }
            start = i + 1;
        }
        i += 1;
    }
    if start < n {
        let line = copy_range(data, start, n);
        let ghost old_r = r@;
        r.push(line);
        proof {
            let suffix = data@.skip(start as int);
            assert forall|j: int| 0 <= j < suffix.len() implies suffix[j] != NL by {
                assert(suffix[j] == data@[start + j]);
            }
            lemma_find_nl(suffix, 0);
            assert(find_nl(suffix, 0) == suffix.len()) by {
                if find_nl(suffix, 0) < suffix.len() {
                    assert(suffix[find_nl(suffix, 0)] == NL);
                }
            }
            assert(lines_of(suffix) == seq![suffix]);
            assert(suffix =~= data@.subrange(start as int, n as int));
            assert(views_of(r@) =~= views_of(old_r).push(line@));
            assert(views_of(r@) =~= views_of(old_r) + seq![line@]);
        }
    } else {
        proof {
            assert(data@.skip(start as int) =~= Seq::<u8>::empty());
        }
    }
    proof {
        assert(views_of(r@) =~= lines_of(data@));
    }
    r
}

/// The position just past the line's content, with the terminator stripped.
fn eol_pos(l: &Vec<u8>) -> (m: usize)
    ensures
        l@.subrange(0, m as int) == strip_eol(l@),
        m <= l@.len(),
{
    let mut m = l.len();
    if m > 0 && l[m - 1] == NL {
        m -= 1;
    }
    if m > 0 && l[m - 1] == CR {
        m -= 1;
    }
    proof {
        assert(l@.subrange(0, m as int) =~= strip_eol(l@));
    }
    m
}

/// Is the line a section header?
pub fn is_header_line(l: &Vec<u8>) -> (r: bool)
    ensures
        r == is_header(l@),
{
    let m = eol_pos(l);
    let ghost t = strip_eol(l@);
    if m < 2 {
        return false;
    }
    proof {
        assert(t[0] == l@[0]);
        assert(t.last() == l@[m - 1]);
    }
    l[0] == LBRACKET && l[m - 1] == RBRACKET
}

/// Is the line the header of the given section?
pub fn header_matches(l: &Vec<u8>, target: &Vec<u8>) -> (r: bool)
    ensures
        r == (is_header(l@) && header_name(l@) == target@),
{
    if !is_header_line(l) {
        return false;
    }
    let m = eol_pos(l);
    let ghost t = strip_eol(l@);
    if m - 2 != target.len() {
        proof {
            assert(header_name(l@).len() == m - 2);
        }
        return false;
    }
    let mut j: usize = 0;
    while j < m - 2
        invariant
            0 <= j <= m - 2,
            m - 2 == target@.len(),
            2 <= m <= l@.len(),
            l@.subrange(0, m as int) == strip_eol(l@),
            forall|x: int| 0 <= x < j ==> l@[1 + x] == target@[x],
        decreases m - 2 - j,
    {
        if l[1 + j] != target[j] {
            proof {
                assert(header_name(l@)[j as int] == t[1 + j]);
                assert(t[1 + j] == l@[1 + j]);
            }
            return false;
        }
        j += 1;
    }
    proof {
        assert forall|x: int| 0 <= x < m - 2 implies header_name(l@)[x] == target@[x] by {
            assert(header_name(l@)[x] == t[1 + x]);
            assert(t[1 + x] == l@[1 + x]);
        }
        assert(header_name(l@) =~= target@);
    }
    true
}

/// Build the section name `submodule "<basename>"`.
pub fn build_section_name(basename: &Vec<u8>) -> (r: Vec<u8>)
    ensures
        r@ == section_for(basename@),
{
    let mut r: Vec<u8> = Vec::new();
    r.push(115);
    r.push(117);
    r.push(98);
    r.push(109);
    r.push(111);
    r.push(100);
    r.push(117);
    r.push(108);
    r.push(101);
    r.push(32);
    r.push(34);
    let mut i: usize = 0;
    while i < basename.len()
        invariant
            i <= basename@.len(),
            r@.len() == 11 + i,
            forall|j: int| 0 <= j < 11 ==> r@[j] == section_for(basename@)[j],
            forall|j: int| 0 <= j < i ==> r@[11 + j] == basename@[j],
        decreases basename@.len() - i,
    {
        r.push(basename[i]);
        i += 1;
    }
    r.push(34);
    proof {
        assert(r@ =~= section_for(basename@));
    }
    r
}

/// Build the file name `.gitmodules`.
pub fn build_gitmodules_name() -> (r: Vec<u8>)
    ensures
        r@ == gitmodules_name(),
{
    let mut r: Vec<u8> = Vec::new();
    r.push(46);
    r.push(103);
    r.push(105);
    r.push(116);
    r.push(109);
    r.push(111);
    r.push(100);
    r.push(117);
    r.push(108);
    r.push(101);
    r.push(115);
    proof {
        assert(r@ =~= gitmodules_name());
    }
    r
}

/// Is the line only whitespace?
fn is_blank_line(l: &Vec<u8>) -> (r: bool)
    ensures
        r == is_blank(l@),
{
    let mut j: usize = 0;
    while j < l.len()
        invariant
            j <= l@.len(),
            forall|x: int|
                0 <= x < j ==> (l@[x] == 32 || l@[x] == 9 || l@[x] == NL || l@[x] == CR),
        decreases l@.len() - j,
    {
        let b = l[j];
        if !(b == 32 || b == 9 || b == NL || b == CR) {
            return false;
        }
        j += 1;
    }
    true
}

/// Concatenate lines back into one byte string.
fn concat_lines(lines: &Vec<Vec<u8>>) -> (r: Vec<u8>)
    ensures
        r@ == views_of(lines@).flatten(),
{
    let ghost lv = views_of(lines@);
    let mut r: Vec<u8> = Vec::new();
    let mut i: usize = 0;
    proof {
        assert(lv.take(0) =~= Seq::<Seq<u8>>::empty());
        assert(r@ =~= lv.take(0).flatten());
    }
    while i < lines.len()
        invariant
            i <= lines@.len(),
            lv == views_of(lines@),
            r@ == lv.take(i as int).flatten(),
        decreases lines@.len() - i,
    {
        let line = &lines[i];
        let mut j: usize = 0;
        while j < line.len()
            invariant
                j <= line@.len(),
                r@ == lv.take(i as int).flatten() + line@.take(j as int),
            decreases line@.len() - j,
        {
            r.push(line[j]);
            proof {
                assert(line@.take(j + 1) =~= line@.take(j as int).push(line@[j as int]));
                assert(r@ =~= lv.take(i as int).flatten() + line@.take(j + 1));
            }
            j += 1;
        }
        proof {
            assert(line@.take(line@.len() as int) =~= line@);
            assert(lv.take(i + 1) =~= lv.take(i as int).push(lv[i as int]));
            lv.take(i as int).lemma_flatten_push(lv[i as int]);
            assert(r@ =~= lv.take(i + 1).flatten());
        }
        i += 1;
    }
    proof {
        assert(lv.take(lv.len() as int) =~= lv);
    }
    r
}

/// Remove the stanza `submodule "<basename>"` from `.gitmodules` content.
/// The answer says whether the file is unchanged (no such stanza), should be
/// deleted (nothing but blank lines remains), or replaced by new content.
pub fn edit_gitmodules_blob(data: &Vec<u8>, basename: &Vec<u8>) -> (r: BlobEdit)
    ensures
        ({
            let lines = lines_of(data@);
            let target = section_for(basename@);
            let ed = edit_lines(lines, target, false);
            &&& (r is Unchanged <==> !has_target(lines, target))
            &&& (r is Delete <==> has_target(lines, target) && all_blank(ed))
            &&& (r matches BlobEdit::Replace(v) ==> v@ == ed.flatten() && has_target(lines, target)
                && !all_blank(ed))
        }),
{
    let ls = split_lines(data);
    let target = build_section_name(basename);
    let ghost lsv = views_of(ls@);
    let ghost tv = section_for(basename@);
    let mut kept: Vec<Vec<u8>> = Vec::new();
    let mut removing: bool = false;
    let mut found: bool = false;
    let mut i: usize = 0;
    proof {
        assert(lsv.skip(0) =~= lsv);
        assert(views_of(kept@) + edit_lines(lsv.skip(0), tv, false) =~= edit_lines(
            lsv,
            tv,
            false,
        ));
    }
    while i < ls.len()
        invariant
            i <= ls@.len(),
            lsv == views_of(ls@),
            tv == target@,
            edit_lines(lsv, tv, false) == views_of(kept@) + edit_lines(
                lsv.skip(i as int),
                tv,
                removing,
            ),
            found <==> has_target(lsv.take(i as int), tv),
        decreases ls@.len() - i,
    {
        let ghost old_kept = kept@;
        let ghost sub = lsv.skip(i as int);
        proof {
            assert(sub[0] == lsv[i as int]);
            assert(lsv[i as int] == ls@[i as int]@);
            assert(sub.drop_first() =~= lsv.skip(i + 1));
        }
        let hm = header_matches(&ls[i], &target);
        let hd = is_header_line(&ls[i]);
        if hd {
            if hm {
                removing = true;
                found = true;
            } else {
                kept.push(crate::store::clone_bytes(&ls[i]));
                removing = false;
                proof {
                    assert(views_of(kept@) =~= views_of(old_kept).push(ls@[i as int]@));
                    assert(views_of(kept@) + edit_lines(lsv.skip(i + 1), tv, false) =~= views_of(
                        old_kept,
                    ) + (seq![sub[0]] + edit_lines(sub.drop_first(), tv, false)));
                }
            }
        } else {
            if !removing {
                kept.push(crate::store::clone_bytes(&ls[i]));
                proof {
                    assert(views_of(kept@) =~= views_of(old_kept).push(ls@[i as int]@));
                    assert(views_of(kept@) + edit_lines(lsv.skip(i + 1), tv, removing)
                        =~= views_of(old_kept) + (seq![sub[0]] + edit_lines(
                        sub.drop_first(),
                        tv,
                        removing,
                    )));
                }
            }
        }
        proof {
            assert(lsv.take(i + 1) =~= lsv.take(i as int).push(lsv[i as int]));
            if has_target(lsv.take(i + 1), tv) {
                let w = choose|w: int|
                    0 <= w < lsv.take(i + 1).len() && is_header(#[trigger] lsv.take(i + 1)[w])
                        && header_name(lsv.take(i + 1)[w]) == tv;
                if w < i {
                    assert(lsv.take(i as int)[w] == lsv.take(i + 1)[w]);
                    assert(has_target(lsv.take(i as int), tv));
                } else {
                    assert(lsv.take(i + 1)[w] == lsv[i as int]);
                }
            }
            if has_target(lsv.take(i as int), tv) {
                let w = choose|w: int|
                    0 <= w < lsv.take(i as int).len() && is_header(#[trigger] lsv.take(i as int)[w])
                        && header_name(lsv.take(i as int)[w]) == tv;
                assert(lsv.take(i + 1)[w] == lsv.take(i as int)[w]);
                assert(has_target(lsv.take(i + 1), tv));
            }
            if hd && hm {
                assert(lsv.take(i + 1)[i as int] == lsv[i as int]);
                assert(has_target(lsv.take(i + 1), tv));
            }
        }
        i += 1;
    }
    proof {
        assert(lsv.take(lsv.len() as int) =~= lsv);
        assert(lsv.skip(lsv.len() as int) =~= Seq::<Seq<u8>>::empty());
        assert(edit_lines(lsv, tv, false) =~= views_of(kept@));
    }
    if !found {
        return BlobEdit::Unchanged;
    }
    let mut all_b: bool = true;
    let mut j: usize = 0;
    while j < kept.len()
        invariant
            j <= kept@.len(),
            all_b <==> (forall|x: int| 0 <= x < j ==> is_blank(#[trigger] views_of(kept@)[x])),
        decreases kept@.len() - j,
    {
        proof {
            assert(views_of(kept@)[j as int] == kept@[j as int]@);
        }
        if !is_blank_line(&kept[j]) {
            all_b = false;
        }
        j += 1;
    }
    if all_b {
        return BlobEdit::Delete;
    }
    let content = concat_lines(&kept);
    BlobEdit::Replace(content)
}

} // verus!
