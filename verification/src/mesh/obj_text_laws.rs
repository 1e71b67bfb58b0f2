//! What holds of the references in an OBJ file.
use vstd::prelude::*;

use super::obj_text::{
    has_wild, is_wild, lines_from, next_index, part, references_fit, LinesView, Referred,
};
use crate::laws::numbers::{is_digits, law_whole};
use crate::numbers::{decimal, words};

verus! {

// ---------------------------------------------------------------------------
// References
// ---------------------------------------------------------------------------

/// A reference leads too far if the numbers that it leads to stand further on than an index can
/// say. One that counts back does if it goes back further than just before the first thing. A
/// number that is no reference at all leads nowhere.
pub proof fn law_wild(digits: Seq<char>, count: nat)
    requires
        is_digits(digits),
        digits.len() > 0,
    ensures
        ({
            let n = decimal(digits) as int;
            &&& is_wild(Referred::Normal, digits, count) <==> 0 < n <= i64::MAX && 3 * n - 1
                > usize::MAX
            &&& is_wild(Referred::Texcoord, digits, count) <==> 0 < n <= i64::MAX && 2 * n - 1
                > usize::MAX
            &&& is_wild(Referred::Normal, seq!['+'] + digits, count) == is_wild(
                Referred::Normal,
                digits,
                count,
            )
            &&& is_wild(Referred::Texcoord, seq!['+'] + digits, count) == is_wild(
                Referred::Texcoord,
                digits,
                count,
            )
            &&& is_wild(Referred::Normal, seq!['-'] + digits, count) <==> n
                <= 0x8000_0000_0000_0000 && n > count + 1
            &&& is_wild(Referred::Texcoord, seq!['-'] + digits, count) <==> n
                <= 0x8000_0000_0000_0000 && n > count + 1
        }),
{
    assert(48 <= digits[0] as int <= 57);
    assert((seq!['-'] + digits).skip(1) =~= digits);
    law_whole(digits, i64::MAX as u64);
    law_whole(digits, 0x8000_0000_0000_0000);
}

/// Whether a text has no slash.
pub open spec fn has_no_slash(s: Seq<char>) -> bool {
    forall|i: int| 0 <= i < s.len() ==> #[trigger] s[i] != '/'
}

proof fn lemma_next_at(s: Seq<char>, c: char, from: int, at: int)
    requires
        0 <= from <= at <= s.len(),
        forall|i: int| from <= i < at ==> #[trigger] s[i] != c,
        at < s.len() ==> s[at] == c,
    ensures
        next_index(s, c, from) == at,
    decreases at - from,
{
    if from < at {
        assert(s[from] != c);
        lemma_next_at(s, c, from + 1, at);
    }
}

/// A corner is a position, a texture coordinate and a normal, with slashes between them. A wild
/// reference to a texture coordinate or a normal is one in its own place, and a part that is
/// missing is not wild.
pub proof fn law_corner(a: Seq<char>, b: Seq<char>, c: Seq<char>, count: nat)
    requires
        has_no_slash(a),
        has_no_slash(b),
        has_no_slash(c),
    ensures
        !has_wild(Referred::Texcoord, a, count),
        !has_wild(Referred::Normal, a, count),
        has_wild(Referred::Texcoord, a.push('/') + b, count) == is_wild(
            Referred::Texcoord,
            b,
            count,
        ),
        !has_wild(Referred::Normal, a.push('/') + b, count),
        has_wild(Referred::Texcoord, a.push('/') + b.push('/') + c, count) == is_wild(
            Referred::Texcoord,
            b,
            count,
        ),
        has_wild(Referred::Normal, a.push('/') + b.push('/') + c, count) == is_wild(
            Referred::Normal,
            c,
            count,
        ),
{
    reveal_with_fuel(part, 3);
    let two = a.push('/') + b;
    let three = a.push('/') + b.push('/') + c;
    let m = a.len() as int;
    let n = m + 1 + b.len();
    lemma_next_at(a, '/', 0, m);
    assert forall|i: int| 0 <= i < m implies #[trigger] two[i] != '/' by {
        assert(two[i] == a[i]);
    }
    assert forall|i: int| m + 1 <= i < two.len() implies #[trigger] two[i] != '/' by {
        assert(two[i] == b[i - m - 1]);
    }
    lemma_next_at(two, '/', 0, m);
    lemma_next_at(two, '/', m + 1, two.len() as int);
    assert(two.subrange(m + 1, two.len() as int) =~= b);
    assert forall|i: int| 0 <= i < m implies #[trigger] three[i] != '/' by {
        assert(three[i] == a[i]);
    }
    assert forall|i: int| m + 1 <= i < n implies #[trigger] three[i] != '/' by {
        assert(three[i] == b[i - m - 1]);
    }
    assert forall|i: int| n + 1 <= i < three.len() implies #[trigger] three[i] != '/' by {
        assert(three[i] == c[i - n - 1]);
    }
    lemma_next_at(three, '/', 0, m);
    lemma_next_at(three, '/', m + 1, n);
    lemma_next_at(three, '/', n + 1, three.len() as int);
    assert(three.subrange(m + 1, n) =~= b);
    assert(three.subrange(n + 1, three.len() as int) =~= c);
}

// ---------------------------------------------------------------------------
// Lines
// ---------------------------------------------------------------------------

/// A line is told by its first word: a texture coordinate, a normal, a face or a line with
/// corners, or the start of another object.
pub proof fn law_line(l: LinesView, ws: Seq<Seq<char>>)
    ensures
        ws.len() > 0 && ws[0] == seq!['v', 't'] ==> l.with_line(ws) == (LinesView {
            texcoords: l.texcoords + 1,
            ..l
        }),
        ws.len() > 0 && ws[0] == seq!['v', 'n'] ==> l.with_line(ws) == (LinesView {
            normals: l.normals + 1,
            ..l
        }),
        ws.len() > 0 && (ws[0] == seq!['f'] || ws[0] == seq!['l']) ==> {
            let after = l.with_line(ws);
            &&& after.texcoords == l.texcoords && after.normals == l.normals && after.lost == l.lost
            &&& after.has_faces
            &&& after.wild_texcoord <==> l.wild_texcoord || exists|k: int|
                1 <= k < ws.len() && has_wild(Referred::Texcoord, #[trigger] ws[k], l.texcoords)
            &&& after.wild_normal <==> l.wild_normal || exists|k: int|
                1 <= k < ws.len() && has_wild(Referred::Normal, #[trigger] ws[k], l.normals)
        },
        ws.len() > 0 && (ws[0] == seq!['o'] || ws[0] == seq!['g']) ==> {
            let after = l.with_line(ws);
            if l.has_faces {
                ends(l, after)
            } else {
                after == l
            }
        },
        ws.len() == 0 || (ws[0] != seq!['v', 't'] && ws[0] != seq!['v', 'n'] && ws[0] != seq!['f']
            && ws[0] != seq!['l'] && ws[0] != seq!['o'] && ws[0] != seq!['g']) ==> l.with_line(ws)
            == l,
{
    reveal_strlit("vt");
    reveal_strlit("vn");
    reveal_strlit("f");
    reveal_strlit("l");
    reveal_strlit("o");
    reveal_strlit("g");
    assert("vt"@ =~= seq!['v', 't']);
    assert("vn"@ =~= seq!['v', 'n']);
    assert("f"@ =~= seq!['f']);
    assert("l"@ =~= seq!['l']);
    assert("o"@ =~= seq!['o']);
    assert("g"@ =~= seq!['g']);
    assert(seq!['v', 't'][1] != seq!['v', 'n'][1]);
    assert(seq!['f'][0] == 'f' && seq!['l'][0] == 'l' && seq!['o'][0] == 'o' && seq!['g'][0]
        == 'g');
    assert(seq!['v', 't'].len() == 2 && seq!['v', 'n'].len() == 2 && seq!['f'].len() == 1
        && seq!['l'].len() == 1 && seq!['o'].len() == 1 && seq!['g'].len() == 1);
    if ws.len() > 0 {
        let start = LinesView { has_faces: true, ..l };
        let corners = ws.skip(1);
        lemma_corners(start, corners);
        let after = start.with_corners(corners);
        assert forall|k: int| 1 <= k < ws.len() implies #[trigger] ws[k] == corners[k - 1] by {
        }
        assert forall|k: int| 0 <= k < corners.len() implies #[trigger] corners[k] == ws[k + 1] by {
        }
        if exists|k: int|
            1 <= k < ws.len() && has_wild(Referred::Texcoord, #[trigger] ws[k], l.texcoords) {
            let k = choose|k: int|
                1 <= k < ws.len() && has_wild(Referred::Texcoord, #[trigger] ws[k], l.texcoords);
            assert(has_wild(Referred::Texcoord, corners[k - 1], l.texcoords));
        }
        if exists|k: int|
            1 <= k < ws.len() && has_wild(Referred::Normal, #[trigger] ws[k], l.normals) {
            let k = choose|k: int|
                1 <= k < ws.len() && has_wild(Referred::Normal, #[trigger] ws[k], l.normals);
            assert(has_wild(Referred::Normal, corners[k - 1], l.normals));
        }
        if exists|k: int|
            0 <= k < corners.len() && has_wild(
                Referred::Texcoord,
                #[trigger] corners[k],
                start.texcoords,
            ) {
            let k = choose|k: int|
                0 <= k < corners.len() && has_wild(
                    Referred::Texcoord,
                    #[trigger] corners[k],
                    start.texcoords,
                );
            assert(has_wild(Referred::Texcoord, ws[k + 1], l.texcoords));
        }
        if exists|k: int|
            0 <= k < corners.len() && has_wild(
                Referred::Normal,
                #[trigger] corners[k],
                start.normals,
            ) {
            let k = choose|k: int|
                0 <= k < corners.len() && has_wild(
                    Referred::Normal,
                    #[trigger] corners[k],
                    start.normals,
                );
            assert(has_wild(Referred::Normal, ws[k + 1], l.normals));
        }
    }
}

/// Whether an object is finished: its wild references count if there is something that they were
/// meant to lead to.
pub open spec fn ends(l: LinesView, after: LinesView) -> bool {
    &&& after.texcoords == l.texcoords && after.normals == l.normals
    &&& !after.has_faces && !after.wild_texcoord && !after.wild_normal
    &&& after.lost <==> l.lost || (l.wild_texcoord && l.texcoords > 0) || (l.wild_normal
        && l.normals > 0)
}

proof fn lemma_corners(l: LinesView, corners: Seq<Seq<char>>)
    ensures
        ({
            let after = l.with_corners(corners);
            &&& after.texcoords == l.texcoords && after.normals == l.normals && after.lost == l.lost
            &&& after.has_faces == l.has_faces
            &&& after.wild_texcoord <==> l.wild_texcoord || exists|k: int|
                0 <= k < corners.len() && has_wild(
                    Referred::Texcoord,
                    #[trigger] corners[k],
                    l.texcoords,
                )
            &&& after.wild_normal <==> l.wild_normal || exists|k: int|
                0 <= k < corners.len() && has_wild(Referred::Normal, #[trigger] corners[k], l.normals)
        }),
    decreases corners.len(),
{
    if corners.len() > 0 {
        let rest = corners.drop_last();
        let n = rest.len() as int;
        lemma_corners(l, rest);
        assert(corners[n] == corners.last());
        let after = l.with_corners(corners);
        if after.wild_texcoord && !l.wild_texcoord {
            if !has_wild(Referred::Texcoord, corners.last(), l.texcoords) {
                let k = choose|k: int|
                    0 <= k < rest.len() && has_wild(
                        Referred::Texcoord,
                        #[trigger] rest[k],
                        l.texcoords,
                    );
                assert(corners[k] == rest[k]);
            }
        }
        if after.wild_normal && !l.wild_normal {
            if !has_wild(Referred::Normal, corners.last(), l.normals) {
                let k = choose|k: int|
                    0 <= k < rest.len() && has_wild(Referred::Normal, #[trigger] rest[k], l.normals);
                assert(corners[k] == rest[k]);
            }
        }
        if exists|k: int|
            0 <= k < corners.len() && has_wild(
                Referred::Texcoord,
                #[trigger] corners[k],
                l.texcoords,
            ) {
            let k = choose|k: int|
                0 <= k < corners.len() && has_wild(
                    Referred::Texcoord,
                    #[trigger] corners[k],
                    l.texcoords,
                );
            if k < n {
                assert(rest[k] == corners[k]);
            }
        }
        if exists|k: int|
            0 <= k < corners.len() && has_wild(Referred::Normal, #[trigger] corners[k], l.normals) {
            let k = choose|k: int|
                0 <= k < corners.len() && has_wild(Referred::Normal, #[trigger] corners[k], l.normals);
            if k < n {
                assert(rest[k] == corners[k]);
            }
        }
    }
}

/// A text is read line by line. What comes before a line break is a line, the rest is read behind
/// it, and the end of the text finishes the last object.
pub proof fn law_lines(s: Seq<char>, from: int, end: int, l: LinesView)
    requires
        0 <= from <= end <= s.len(),
        forall|i: int| from <= i < end ==> #[trigger] s[i] != '\n',
        end < s.len() ==> s[end] == '\n',
    ensures
        end < s.len() ==> lines_from(s, from, l) == lines_from(
            s,
            end + 1,
            l.with_line(words(s.subrange(from, end))),
        ),
        end == s.len() && from < end ==> ends(
            l.with_line(words(s.subrange(from, end))),
            lines_from(s, from, l),
        ),
        from == s.len() ==> ends(l, lines_from(s, from, l)),
{
    lemma_next_at(s, '\n', from, end);
}

/// The references of a text fit if nothing is lost when it is read from its start, with nothing
/// read before.
pub proof fn law_references_fit(s: Seq<char>, start: LinesView)
    requires
        start.texcoords == 0,
        start.normals == 0,
        !start.has_faces,
        !start.wild_texcoord,
        !start.wild_normal,
        !start.lost,
    ensures
        references_fit(s) <==> !lines_from(s, 0, start).lost,
{
    assert(start == LinesView::start());
}

} // verus!
