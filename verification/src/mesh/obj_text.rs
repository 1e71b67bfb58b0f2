//! The references between the lines of an OBJ file.
use vstd::prelude::*;
use vstd::slice::slice_subrange;

use crate::numbers::{parse_whole, split_words, whole, words, words_view};
use crate::text;

verus! {

// ---------------------------------------------------------------------------
// References
// ---------------------------------------------------------------------------

/// What a reference in a face is to.
#[derive(Clone, Copy, PartialEq, Eq, Structural, Debug)]
pub enum Referred {
    /// A texture coordinate, which is two numbers.
    Texcoord,
    /// A normal, which is three numbers.
    Normal,
}

/// Where the last of the numbers that a positive reference leads to stands.
pub open spec fn last_number(referred: Referred, reference: u64) -> int {
    match referred {
        Referred::Texcoord => 2 * (reference - 1) + 1,
        Referred::Normal => 3 * (reference - 1) + 2,
    }
}

/// Whether a reference leads further than an index can. A negative one counts back from the last
/// of the `count` things before it, and just before the first of them is nowhere at all. What is
/// no number at all is no reference.
pub open spec fn is_wild(referred: Referred, s: Seq<char>, count: nat) -> bool {
    if s.len() > 0 && s[0] == '-' {
        match whole(s.skip(1), 0x8000_0000_0000_0000) {
            Some(back) => back > count + 1,
            None => false,
        }
    } else {
        match whole(s, i64::MAX as u64) {
            Some(reference) => reference > 0 && last_number(referred, reference) > usize::MAX,
            None => false,
        }
    }
}

/// Where a character occurs first from a place on, or the end.
pub open spec fn next_index(s: Seq<char>, c: char, from: int) -> int
    decreases s.len() - from,
{
    if from >= s.len() {
        s.len() as int
    } else if s[from] == c {
        from
    } else {
        next_index(s, c, from + 1)
    }
}

/// Looking for a character from a place on stops there or further on, and at the end at last.
pub proof fn lemma_next_index(s: Seq<char>, c: char, from: int)
    requires
        0 <= from <= s.len(),
    ensures
        from <= next_index(s, c, from) <= s.len(),
    decreases s.len() - from,
{
    if from < s.len() && s[from] != c {
        lemma_next_index(s, c, from + 1);
    }
}

/// A part of a word that slashes divide, from a place on.
pub open spec fn part(s: Seq<char>, from: int, k: int) -> Option<Seq<char>>
    decreases k,
{
    let end = next_index(s, '/', from);
    if k <= 0 {
        if from <= end {
            Some(s.subrange(from, end))
        } else {
            None
        }
    } else if end < s.len() {
        part(s, end + 1, k - 1)
    } else {
        None
    }
}

/// Whether a corner of a face has a wild reference as one of its parts.
pub open spec fn has_wild(referred: Referred, corner: Seq<char>, count: nat) -> bool {
    match part(
        corner,
        0,
        match referred {
            Referred::Texcoord => 1,
            Referred::Normal => 2,
        },
    ) {
        Some(s) => is_wild(referred, s, count),
        None => false,
    }
}

// ---------------------------------------------------------------------------
// Lines
// ---------------------------------------------------------------------------

/// What the lines of an OBJ file have come to.
#[verifier::ext_equal]
pub struct LinesView {
    /// How many texture coordinates and normals there are.
    pub texcoords: nat,
    pub normals: nat,
    /// Whether the current object has faces, and wild references in them.
    pub has_faces: bool,
    pub wild_texcoord: bool,
    pub wild_normal: bool,
    /// Whether an object was finished with wild references that had something to lead to.
    pub lost: bool,
}

impl LinesView {
    /// No lines.
    pub open spec fn start() -> LinesView {
        LinesView {
            texcoords: 0,
            normals: 0,
            has_faces: false,
            wild_texcoord: false,
            wild_normal: false,
            lost: false,
        }
    }

    /// The current object is finished.
    pub open spec fn finished(self) -> LinesView {
        LinesView {
            has_faces: false,
            wild_texcoord: false,
            wild_normal: false,
            lost: self.lost || (self.wild_texcoord && self.texcoords > 0) || (self.wild_normal
                && self.normals > 0),
            ..self
        }
    }

    /// Several corners of a face.
    pub open spec fn with_corners(self, corners: Seq<Seq<char>>) -> LinesView
        decreases corners.len(),
    {
        if corners.len() == 0 {
            self
        } else {
            let before = self.with_corners(corners.drop_last());
            LinesView {
                wild_texcoord: before.wild_texcoord || has_wild(
                    Referred::Texcoord,
                    corners.last(),
                    self.texcoords,
                ),
                wild_normal: before.wild_normal || has_wild(
                    Referred::Normal,
                    corners.last(),
                    self.normals,
                ),
                ..before
            }
        }
    }

    /// One more line, as its words.
    pub open spec fn with_line(self, ws: Seq<Seq<char>>) -> LinesView {
        if ws.len() == 0 {
            self
        } else if ws[0] == "vt"@ {
            LinesView { texcoords: self.texcoords + 1, ..self }
        } else if ws[0] == "vn"@ {
            LinesView { normals: self.normals + 1, ..self }
        } else if ws[0] == "f"@ || ws[0] == "l"@ {
            LinesView { has_faces: true, ..self }.with_corners(ws.skip(1))
        } else if (ws[0] == "o"@ || ws[0] == "g"@) && self.has_faces {
            self.finished()
        } else {
            self
        }
    }
}

/// What the lines of a text from a place on come to.
pub open spec fn lines_from(s: Seq<char>, from: int, l: LinesView) -> LinesView
    decreases s.len() - from,
{
    if from < 0 || from >= s.len() {
        l.finished()
    } else {
        let end = next_index(s, '\n', from);
        let next = l.with_line(words(s.subrange(from, end)));
        proof {
            lemma_next_index(s, '\n', from);
        }
        if end == s.len() {
            next.finished()
        } else {
            lines_from(s, end + 1, next)
        }
    }
}

/// Whether no reference in a finished object leads further than an index can.
pub open spec fn references_fit(s: Seq<char>) -> bool {
    !lines_from(s, 0, LinesView::start()).lost
}

// ---------------------------------------------------------------------------
// Checking references
// ---------------------------------------------------------------------------

/// Where a character occurs first from a place on, or the end.
fn find_next(cs: &[char], c: char, from: usize) -> (r: usize)
    requires
        from <= cs@.len(),
    ensures
        r == next_index(cs@, c, from as int),
        from <= r <= cs@.len(),
{
    let mut i = from;
    while i < cs.len() && cs[i] != c
        invariant
            from <= i <= cs@.len(),
            next_index(cs@, c, from as int) == next_index(cs@, c, i as int),
        decreases cs@.len() - i,
    {
        i += 1;
    }
    i
}

/// Whether a reference leads further than an index can.
fn wild(referred: Referred, cs: &[char], count: usize) -> (r: bool)
    ensures
        r == is_wild(referred, cs@, count as nat),
{
    if cs.len() > 0 && cs[0] == '-' {
        let digits = slice_subrange(cs, 1, cs.len());
        assert(digits@ =~= cs@.skip(1));
        match parse_whole(digits, 0x8000_0000_0000_0000) {
            Some(back) => back as u128 > count as u128 + 1,
            None => false,
        }
    } else {
        match parse_whole(cs, i64::MAX as u64) {
            Some(reference) => {
                if reference == 0 {
                    return false;
                }
                let before: u128 = reference as u128 - 1;
                let last = match referred {
                    Referred::Texcoord => 2 * before + 1,
                    Referred::Normal => 3 * before + 2,
                };
                last > usize::MAX as u128
            },
            None => false,
        }
    }
}

/// Whether a corner of a face has a wild reference as one of its parts.
fn corner_wild(referred: Referred, corner: &[char], count: usize) -> (r: bool)
    ensures
        r == has_wild(referred, corner@, count as nat),
{
    reveal_with_fuel(part, 3);
    let one = find_next(corner, '/', 0);
    if one == corner.len() {
        return false;
    }
    let two = find_next(corner, '/', one + 1);
    match referred {
        Referred::Texcoord => wild(referred, slice_subrange(corner, one + 1, two), count),
        Referred::Normal => {
            if two == corner.len() {
                return false;
            }
            let three = find_next(corner, '/', two + 1);
            wild(referred, slice_subrange(corner, two + 1, three), count)
        },
    }
}

/// What the lines of an OBJ file have come to.
struct Lines {
    texcoords: usize,
    normals: usize,
    has_faces: bool,
    wild_texcoord: bool,
    wild_normal: bool,
    lost: bool,
}

impl View for Lines {
    type V = LinesView;

    closed spec fn view(&self) -> LinesView {
        LinesView {
            texcoords: self.texcoords as nat,
            normals: self.normals as nat,
            has_faces: self.has_faces,
            wild_texcoord: self.wild_texcoord,
            wild_normal: self.wild_normal,
            lost: self.lost,
        }
    }
}

/// Whether characters are those of a string.
fn are(cs: &Vec<char>, s: &str) -> (r: bool)
    ensures
        r == (cs@ == s@),
{
    let wanted = text::chars(s);
    if cs.len() != wanted.len() {
        return false;
    }
    for i in 0..cs.len()
        invariant
            wanted@ == s@,
            cs@.len() == wanted@.len(),
            forall|j: int| 0 <= j < i ==> cs@[j] == wanted@[j],
    {
        if cs[i] != wanted[i] {
            assert(cs@[i as int] != s@[i as int]);
            return false;
        }
    }
    assert(cs@ =~= s@);
    true
}

impl Lines {
    /// The current object is finished.
    fn finish(&mut self)
        ensures
            final(self)@ == old(self)@.finished(),
            final(self).texcoords == old(self).texcoords,
            final(self).normals == old(self).normals,
    {
        if (self.wild_texcoord && self.texcoords > 0) || (self.wild_normal && self.normals > 0) {
            self.lost = true;
        }
        self.has_faces = false;
        self.wild_texcoord = false;
        self.wild_normal = false;
    }

    /// Takes in the corners of a face.
    fn add_corners(&mut self, ws: &Vec<Vec<char>>)
        requires
            ws@.len() > 0,
        ensures
            final(self)@ == old(self)@.with_corners(words_view(ws@).skip(1)),
            final(self).texcoords == old(self).texcoords,
            final(self).normals == old(self).normals,
    {
        let ghost before = self@;
        let ghost corners = words_view(ws@).skip(1);
        for i in 1..ws.len()
            invariant
                before == old(self)@,
                corners == words_view(ws@).skip(1),
                self.texcoords == old(self).texcoords,
                self.normals == old(self).normals,
                self@ == before.with_corners(corners.take(i - 1)),
        {
            assert(corners.take(i as int).drop_last() =~= corners.take(i - 1));
            assert(corners.take(i as int).last() == ws@[i as int]@);
            let corner = ws[i].as_slice();
            if corner_wild(Referred::Texcoord, corner, self.texcoords) {
                self.wild_texcoord = true;
            }
            if corner_wild(Referred::Normal, corner, self.normals) {
                self.wild_normal = true;
            }
        }
        assert(corners.take(corners.len() as int) =~= corners);
    }

    /// Takes in a line, as its words.
    fn add_line(&mut self, ws: &Vec<Vec<char>>)
        requires
            old(self).texcoords < usize::MAX,
            old(self).normals < usize::MAX,
        ensures
            final(self)@ == old(self)@.with_line(words_view(ws@)),
            final(self).texcoords <= old(self).texcoords + 1,
            final(self).normals <= old(self).normals + 1,
    {
        if ws.len() == 0 {
            return ;
        }
        assert(words_view(ws@)[0] == ws@[0]@);
        let first = &ws[0];
        if are(first, "vt") {
            self.texcoords += 1;
        } else if are(first, "vn") {
            self.normals += 1;
        } else if are(first, "f") || are(first, "l") {
            self.has_faces = true;
            self.add_corners(ws);
        } else if (are(first, "o") || are(first, "g")) && self.has_faces {
            self.finish();
        }
    }
}

/// Whether no reference in a finished object leads further than an index can.
pub(crate) fn all_references_fit(s: &str) -> (r: bool)
    ensures
        r == references_fit(s@),
{
    let cs = text::chars(s);
    let mut lines = Lines {
        texcoords: 0,
        normals: 0,
        has_faces: false,
        wild_texcoord: false,
        wild_normal: false,
        lost: false,
    };
    assert(lines@ =~= LinesView::start());
    let mut from: usize = 0;
    while from < cs.len()
        invariant
            cs@ == s@,
            lines.texcoords <= from,
            lines.normals <= from,
            lines_from(s@, 0, LinesView::start()) == lines_from(s@, from as int, lines@),
        decreases cs@.len() - from,
    {
        let end = find_next(cs.as_slice(), '\n', from);
        let line = slice_subrange(cs.as_slice(), from, end);
        let ws = split_words(line);
        lines.add_line(&ws);
        if end == cs.len() {
            from = end;
        } else {
            from = end + 1;
        }
    }
    lines.finish();
    !lines.lost
}

} // verus!
