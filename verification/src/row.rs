//! A single row of text as the editor stores it: the raw characters of the
//! line together with a precomputed display form in which each tab is
//! expanded with spaces up to the next multiple-of-8 column.

use vstd::prelude::*;

verus! {

/// Display form of a run of characters: a tab becomes the run of spaces that
/// advances the column to the next multiple of 8; every other character
/// stands as it is.
pub open spec fn expanded(chars: Seq<char>) -> Seq<char>
    decreases chars.len(),
{
    if chars.len() == 0 {
        Seq::empty()
    } else {
        let prefix = expanded(chars.drop_last());
        if chars.last() == '\t' {
            prefix + Seq::new((8 - prefix.len() % 8) as nat, |i: int| ' ')
        } else {
            prefix.push(chars.last())
        }
    }
}

/// The display column reached after advancing over the first `cx` character
/// positions: a tab advances to the next multiple-of-8 column, any other
/// position (including positions past the end) by one.
pub open spec fn rx_of(chars: Seq<char>, cx: int) -> int
    decreases cx,
{
    if cx <= 0 {
        0
    } else {
        let prev = rx_of(chars, cx - 1);
        if cx - 1 < chars.len() && chars[cx - 1] == '\t' {
            prev + (8 - prev % 8)
        } else {
            prev + 1
        }
    }
}

/// The display column never runs ahead of eight columns per character.
pub proof fn lemma_rx_of_bound(chars: Seq<char>, cx: int)
    requires
        cx >= 0,
    ensures
        0 <= rx_of(chars, cx) <= 8 * cx,
    decreases cx,
{
    if cx > 0 {
        lemma_rx_of_bound(chars, cx - 1);
    }
}

/// A row of text: its raw characters and its display form, kept in step.
#[derive(Clone, Debug, PartialEq, Eq)]
pub struct EditorRow {
    /// The raw characters of the line.
    pub chars: Vec<char>,
    /// The display form of the line: tabs expanded to spaces.
    pub render: Vec<char>,
}

impl EditorRow {
    /// The display form always matches the raw characters.
    pub open spec fn wf(self) -> bool {
        self.render@ == expanded(self.chars@)
    }

    /// Build a row from its raw text.
    pub fn new(chars: &str) -> (row: Self)
        ensures
            row.wf(),
            row.chars@ == chars@,
    {
        let cs = Self::str_to_chars(chars);
        let render = Self::render_from_chars(&cs);
        EditorRow { chars: cs, render }
    }

    fn str_to_chars(s: &str) -> (chars: Vec<char>)
        ensures
            chars@ == s@,
    {
        let mut chars: Vec<char> = Vec::new();
        for c in it: s.chars()
            invariant
                it.seq() == s@,
                chars@.len() == it.index(),
                forall|j: int| 0 <= j < it.index() ==> chars@[j] == s@[j],
        {
            chars.push(c);
        }
        proof {
            assert(chars@ =~= s@);
        }
        chars
    }

    /// Compute the display form of a run of raw characters.
    fn render_from_chars(chars: &Vec<char>) -> (render: Vec<char>)
        ensures
            render@ == expanded(chars@),
    {
        let mut render: Vec<char> = Vec::new();
        let n = chars.len();
        for i in 0..n
            invariant
                n == chars@.len(),
                render@ == expanded(chars@.take(i as int)),
        {
            let c = chars[i];
            proof {
                assert(chars@.take(i + 1).drop_last() =~= chars@.take(i as int));
                assert(chars@.take(i + 1).last() == chars@[i as int]);
            }
            if c == '\t' {
                let ghost base = render@;
                render.push(' ');
                while render.len() % 8 != 0
                    invariant
                        base.len() < render@.len() <= base.len() + (8 - base.len() % 8),
                        render@ == base + Seq::new((render@.len() - base.len()) as nat, |j: int| ' '),
                    decreases (8 - render@.len() % 8) % 8,
                {
                    proof {
                        assert(base + Seq::new((render@.len() - base.len() + 1) as nat, |j: int| ' ')
                            =~= (base + Seq::new(
                            (render@.len() - base.len()) as nat,
                            |j: int| ' ',
                        )).push(' '));
                    }
                    render.push(' ');
                }
                proof {
                    assert(render@.len() == base.len() + (8 - base.len() % 8));
                    assert(render@ =~= expanded(chars@.take(i + 1)));
                }
            } else {
                render.push(c);
            }
        }
        proof {
            assert(chars@.take(n as int) =~= chars@);
        }
        render
    }

    /// The character at a 0-based position, if the position is in range.
    pub fn get_char(&self, at: usize) -> (c: Option<char>)
        ensures
            c == if at < self.chars@.len() {
                Some(self.chars@[at as int])
            } else {
                None::<char>
            },
    {
        if at < self.chars.len() {
            Some(self.chars[at])
        } else {
            None
        }
    }

    /// Insert a character at a 0-based position; a position at or past the
    /// end appends.
    pub fn insert_char(&mut self, at: usize, c: char)
        ensures
            final(self).wf(),
            final(self).chars@ == if at < old(self).chars@.len() {
                old(self).chars@.insert(at as int, c)
            } else {
                old(self).chars@.push(c)
            },
    {
        if at < self.chars.len() {
            self.chars.insert(at, c);
        } else {
            self.chars.push(c);
        }
        self.update_render();
    }

    /// Delete the character at a 0-based position; a position at or past the
    /// end leaves the row unchanged.
    pub fn del_char(&mut self, at: usize)
        requires
            old(self).wf(),
        ensures
            final(self).wf(),
            final(self).chars@ == if at < old(self).chars@.len() {
                old(self).chars@.remove(at as int)
            } else {
                old(self).chars@
            },
    {
        if at >= self.chars.len() {
            return ;
        }
        self.chars.remove(at);
        self.update_render();
    }

    /// Append a run of characters to the end of the row.
    pub fn append_string(&mut self, s: &str)
        ensures
            final(self).wf(),
            final(self).chars@ == old(self).chars@ + s@,
    {
        let mut more = Self::str_to_chars(s);
        self.chars.append(&mut more);
        self.update_render();
    }

    /// Replace the raw characters wholesale.
    pub fn update_chars(&mut self, chars: &str)
        ensures
            final(self).wf(),
            final(self).chars@ == chars@,
    {
        self.chars = Self::str_to_chars(chars);
        self.update_render();
    }

    /// Recompute the display form from the raw characters.
    pub fn update_render(&mut self)
        ensures
            final(self).wf(),
            final(self).chars@ == old(self).chars@,
    {
        self.render = Self::render_from_chars(&self.chars);
    }

    /// Map a 0-based character position to its display column.
    pub fn cx_to_rx(&self, cx: usize) -> (rx: usize)
        requires
            cx <= usize::MAX / 8,
        ensures
            rx == rx_of(self.chars@, cx as int),
    {
        let mut rx: usize = 0;
        for i in 0..cx
            invariant
                rx == rx_of(self.chars@, i as int),
                rx <= 8 * i,
                cx <= usize::MAX / 8,
        {
            proof {
                lemma_rx_of_bound(self.chars@, i + 1);
            }
            if i < self.chars.len() && self.chars[i] == '\t' {
                rx = rx + (7 - rx % 8);
            }
            rx = rx + 1;
        }
        rx
    }

    /// Number of characters in the row.
    pub fn len(&self) -> (n: usize)
        ensures
            n == self.chars@.len(),
    {
        self.chars.len()
    }
}

} // verus!
