use vstd::prelude::*;
use vstd::string::*;

use crate::command::{is_whitespace, white_space};
use crate::text::push_char;

verus! {

/// The width, in bytes, past which a description line is wrapped.
pub const LINE_WIDTH: usize = 90;

/// The indentation that starts every description line.
pub const INDENT: usize = 4;

/// The number of bytes `c` takes in UTF-8.
pub open spec fn utf8_len(c: char) -> nat {
    if (c as u32) < 0x80 {
        1
    } else if (c as u32) < 0x800 {
        2
    } else if (c as u32) < 0x10000 {
        3
    } else {
        4
    }
}

/// The number of bytes `s` takes in UTF-8.
pub open spec fn byte_len(s: Seq<char>) -> nat
    decreases s.len(),
{
    if s.len() == 0 {
        0
    } else {
        byte_len(s.drop_last()) + utf8_len(s.last())
    }
}

/// `s` without its leading whitespace.
pub open spec fn trim_start(s: Seq<char>) -> Seq<char>
    decreases s.len(),
{
    if s.len() > 0 && white_space(s[0]) {
        trim_start(s.drop_first())
    } else {
        s
    }
}

/// `s` without its trailing whitespace.
pub open spec fn trim_end(s: Seq<char>) -> Seq<char>
    decreases s.len(),
{
    if s.len() > 0 && white_space(s.last()) {
        trim_end(s.drop_last())
    } else {
        s
    }
}

/// `s` without leading or trailing whitespace.
pub open spec fn trim(s: Seq<char>) -> Seq<char> {
    trim_end(trim_start(s))
}

/// The state of the formatter after a prefix of the description: the text
/// so far, the byte length of its last line, the word being read, and
/// whether the last character was a line break that does not yet end a
/// paragraph.
pub struct Layout {
    pub out: Seq<char>,
    pub width: nat,
    pub piece: Seq<char>,
    pub newline: bool,
}

/// The indentation of a line.
pub open spec fn indent() -> Seq<char> {
    seq![' ', ' ', ' ', ' ']
}

/// Places the word being read, trimmed, if anything is left of it: on the
/// current line followed by a space, or first on a new indented line where
/// it would pass the width.
pub open spec fn place(st: Layout) -> Layout {
    let w = trim(st.piece);
    if w.len() == 0 {
        Layout { piece: Seq::empty(), ..st }
    } else if st.width + byte_len(w) > LINE_WIDTH {
        Layout {
            out: st.out + seq!['\n'] + indent() + w + seq![' '],
            width: (INDENT + byte_len(w) + 1) as nat,
            piece: Seq::empty(),
            newline: st.newline,
        }
    } else {
        Layout {
            out: st.out + w + seq![' '],
            width: (st.width + byte_len(w) + 1) as nat,
            piece: Seq::empty(),
            newline: st.newline,
        }
    }
}

/// The formatter's state after reading one more character `c`: a pair of
/// line breaks ends a paragraph, a single line break or a space ends a word,
/// anything else extends the word.
pub open spec fn read(st: Layout, c: char) -> Layout {
    if c == '\n' {
        if st.newline {
            Layout { out: st.out + seq!['\n', '\n'] + indent(), width: INDENT as nat, piece: Seq::empty(), newline: false }
        } else {
            Layout { newline: true, ..place(st) }
        }
    } else if c == ' ' {
        Layout { newline: false, ..place(st) }
    } else {
        Layout { piece: st.piece.push(c), newline: false, ..st }
    }
}

/// The formatter's state after reading `s`.
pub open spec fn layout(s: Seq<char>) -> Layout
    decreases s.len(),
{
    if s.len() == 0 {
        Layout { out: indent(), width: INDENT as nat, piece: Seq::empty(), newline: false }
    } else {
        read(layout(s.drop_last()), s.last())
    }
}

/// A description laid out for display: paragraphs (separated by a blank
/// line) each start on a line indented by four spaces, words are separated
/// by single spaces and each followed by one, a word that would take a line
/// past the width starts a new indented line, and each paragraph ends with a
/// blank line.
pub open spec fn formatted(s: Seq<char>) -> Seq<char> {
    place(layout(s)).out + seq!['\n', '\n']
}

/// The last line of `s`: what follows its last line break.
pub open spec fn last_line(s: Seq<char>) -> Seq<char>
    decreases s.len(),
{
    if s.len() == 0 {
        s
    } else if s.last() == '\n' {
        Seq::empty()
    } else {
        last_line(s.drop_last()).push(s.last())
    }
}

/// A word as laid out: not empty, and holding no space or line break.
pub open spec fn is_word(w: Seq<char>) -> bool {
    w.len() > 0 && !w.contains(' ') && !w.contains('\n')
}

/// What holds after every prefix: the width is the byte length of the last
/// line; the word being read holds no separator; and the last line stays
/// within the width plus its trailing space unless it holds a single word.
pub open spec fn layout_holds(st: Layout) -> bool {
    &&& byte_len(last_line(st.out)) == st.width
    &&& !st.piece.contains(' ')
    &&& !st.piece.contains('\n')
    &&& (st.width <= LINE_WIDTH + 1 || exists|w: Seq<char>| #[trigger] is_word(w) && last_line(st.out) == indent() + w + seq![' '])
}

proof fn lemma_byte_len_concat(a: Seq<char>, b: Seq<char>)
    ensures
        byte_len(a + b) == byte_len(a) + byte_len(b),
    decreases b.len(),
{
    if b.len() == 0 {
        assert(a + b =~= a);
    } else {
        lemma_byte_len_concat(a, b.drop_last());
        assert((a + b).drop_last() =~= a + b.drop_last());
        assert((a + b).last() == b.last());
    }
}

proof fn lemma_last_line_plain(a: Seq<char>, b: Seq<char>)
    requires
        !b.contains('\n'),
    ensures
        last_line(a + b) == last_line(a) + b,
    decreases b.len(),
{
    if b.len() == 0 {
        assert(a + b =~= a);
        assert(last_line(a) + b =~= last_line(a));
    } else {
        assert(!b.drop_last().contains('\n')) by {
            if b.drop_last().contains('\n') {
                let k = choose|k: int| 0 <= k < b.drop_last().len() && b.drop_last()[k] == '\n';
                assert(b[k] == '\n');
            }
        }
        assert(b.last() != '\n') by {
            assert(b[b.len() - 1] == b.last());
        }
        lemma_last_line_plain(a, b.drop_last());
        assert((a + b).drop_last() =~= a + b.drop_last());
        assert((a + b).last() == b.last());
        assert(last_line(a + b) == (last_line(a) + b.drop_last()).push(b.last()));
        assert((last_line(a) + b.drop_last()).push(b.last()) =~= last_line(a) + b);
    }
}

proof fn lemma_last_line_break(a: Seq<char>, b: Seq<char>)
    requires
        !b.contains('\n'),
    ensures
        last_line(a + seq!['\n'] + b) == b,
{
    let a1 = a + seq!['\n'];
    assert(a1.last() == '\n');
    assert(last_line(a1) == Seq::<char>::empty());
    lemma_last_line_plain(a1, b);
    assert(Seq::<char>::empty() + b =~= b);
}

proof fn lemma_trim_start_within(p: Seq<char>, c: char)
    ensures
        trim_start(p).contains(c) ==> p.contains(c),
    decreases p.len(),
{
    if p.len() > 0 && white_space(p[0]) {
        lemma_trim_start_within(p.drop_first(), c);
        if trim_start(p).contains(c) {
            let k = choose|k: int| 0 <= k < p.drop_first().len() && p.drop_first()[k] == c;
            assert(p[k + 1] == c);
        }
    }
}

proof fn lemma_trim_end_within(p: Seq<char>, c: char)
    ensures
        trim_end(p).contains(c) ==> p.contains(c),
    decreases p.len(),
{
    if p.len() > 0 && white_space(p.last()) {
        lemma_trim_end_within(p.drop_last(), c);
        if trim_end(p).contains(c) {
            let k = choose|k: int| 0 <= k < p.drop_last().len() && p.drop_last()[k] == c;
            assert(p[k] == c);
        }
    }
}

proof fn lemma_space_bytes()
    ensures
        byte_len(seq![' ']) == 1,
{
    assert((' ' as u32) == 32u32);
    assert(utf8_len(' ') == 1);
    assert(byte_len(Seq::<char>::empty()) == 0);
    assert(seq![' '].drop_last() =~= Seq::<char>::empty());
    assert(seq![' '].last() == ' ');
}

proof fn lemma_indent_bytes()
    ensures
        byte_len(indent()) == INDENT,
        !indent().contains('\n'),
{
    let i = indent();
    assert((' ' as u32) == 32u32);
    assert(utf8_len(' ') == 1);
    assert(byte_len(Seq::<char>::empty()) == 0);
    let i1 = i.drop_last().drop_last().drop_last();
    assert(i1 =~= seq![' ']);
    lemma_space_bytes();
    assert(i.drop_last().drop_last().drop_last() =~= seq![' ']);
    assert(byte_len(i.drop_last().drop_last()) == 2);
    assert(byte_len(i.drop_last()) == 3);
    assert(byte_len(i) == 4);
    assert forall|k: int| 0 <= k < i.len() implies i[k] != '\n' by {}
}

proof fn lemma_place_holds(st: Layout)
    requires
        layout_holds(st),
    ensures
        layout_holds(place(st)),
        !place(st).piece.contains(' ') && !place(st).piece.contains('\n'),
        st.out.is_prefix_of(place(st).out),
{
    let w = trim(st.piece);
    lemma_trim_start_within(st.piece, ' ');
    lemma_trim_start_within(st.piece, '\n');
    lemma_trim_end_within(trim_start(st.piece), ' ');
    lemma_trim_end_within(trim_start(st.piece), '\n');
    lemma_indent_bytes();
    let n = place(st);
    if w.len() == 0 {
        assert(n.out == st.out);
    } else if st.width + byte_len(w) > LINE_WIDTH {
        let tail = indent() + w + seq![' '];
        assert(!tail.contains('\n')) by {
            if tail.contains('\n') {
                let k = choose|k: int| 0 <= k < tail.len() && tail[k] == '\n';
                if k < 4 {
                    assert(indent()[k] == '\n');
                } else if k < 4 + w.len() {
                    assert(w[k - 4] == '\n');
                }
            }
        }
        assert(n.out =~= st.out + seq!['\n'] + tail);
        lemma_last_line_break(st.out, tail);
        lemma_byte_len_concat(indent() + w, seq![' ']);
        lemma_byte_len_concat(indent(), w);
        lemma_space_bytes();
        assert(is_word(w));
        assert(st.out.is_prefix_of(n.out)) by {
            assert(n.out.subrange(0, st.out.len() as int) =~= st.out);
        }
    } else {
        let tail = w + seq![' '];
        assert(!tail.contains('\n')) by {
            if tail.contains('\n') {
                let k = choose|k: int| 0 <= k < tail.len() && tail[k] == '\n';
                if k < w.len() {
                    assert(w[k] == '\n');
                }
            }
        }
        assert(n.out =~= st.out + tail);
        lemma_last_line_plain(st.out, tail);
        lemma_byte_len_concat(last_line(st.out), tail);
        lemma_byte_len_concat(w, seq![' ']);
        lemma_space_bytes();
        assert(st.out.is_prefix_of(n.out)) by {
            assert(n.out.subrange(0, st.out.len() as int) =~= st.out);
        }
    }
    assert(!n.piece.contains(' ') && !n.piece.contains('\n'));
}

proof fn lemma_read_holds(st: Layout, c: char)
    requires
        layout_holds(st),
    ensures
        layout_holds(read(st, c)),
        st.out.is_prefix_of(read(st, c).out),
{
    lemma_indent_bytes();
    if c == '\n' {
        if st.newline {
            let n = read(st, c);
            assert(n.out =~= (st.out + seq!['\n']) + seq!['\n'] + indent());
            lemma_last_line_break(st.out + seq!['\n'], indent());
            assert(st.out.is_prefix_of(n.out)) by {
                assert(n.out.subrange(0, st.out.len() as int) =~= st.out);
            }
        } else {
            lemma_place_holds(st);
        }
    } else if c == ' ' {
        lemma_place_holds(st);
    } else {
        let n = read(st, c);
        assert(!n.piece.contains(' ') && !n.piece.contains('\n')) by {
            if n.piece.contains(' ') || n.piece.contains('\n') {
                let k = choose|k: int| 0 <= k < n.piece.len() && (n.piece[k] == ' ' || n.piece[k] == '\n');
                assert(k < st.piece.len());
                assert(st.piece[k] == n.piece[k]);
            }
        }
        assert(st.out.is_prefix_of(n.out));
    }
}

/// Line width: after any prefix of a description, the tracked width is the
/// byte length of the output's last line, and that line (a trailing space
/// included) takes at most the width plus one byte unless it holds a single
/// word that is longer by itself.
pub proof fn lemma_line_width(s: Seq<char>)
    ensures
        layout_holds(layout(s)),
    decreases s.len(),
{
    if s.len() == 0 {
        lemma_indent_bytes();
        let st = layout(s);
        assert(st.out == indent());
        assert(last_line(indent()) == indent()) by {
            lemma_last_line_plain(Seq::<char>::empty(), indent());
            assert(Seq::<char>::empty() + indent() =~= indent());
            assert(last_line(Seq::<char>::empty()) == Seq::<char>::empty());
        }
    } else {
        lemma_line_width(s.drop_last());
        lemma_read_holds(layout(s.drop_last()), s.last());
    }
}

/// Output is only ever appended to: the text laid out for a prefix of a
/// description starts the text laid out for the whole, so every line ever
/// last in a prefix's output is a line of the final output.
pub proof fn lemma_layout_prefix(s: Seq<char>, i: int)
    requires
        0 <= i <= s.len(),
    ensures
        layout(s.take(i)).out.is_prefix_of(layout(s).out),
    decreases s.len(),
{
    if i == s.len() {
        assert(s.take(i) =~= s);
    } else {
        assert(s.take(i) =~= s.drop_last().take(i));
        lemma_layout_prefix(s.drop_last(), i);
        lemma_line_width(s.drop_last());
        lemma_read_holds(layout(s.drop_last()), s.last());
    }
}

/// The byte length of `c` in UTF-8.
fn char_bytes(c: char) -> (r: usize)
    ensures
        r == utf8_len(c),
{
    if (c as u32) < 0x80 {
        1
    } else if (c as u32) < 0x800 {
        2
    } else if (c as u32) < 0x10000 {
        3
    } else {
        4
    }
}

/// `piece` trimmed, with its byte length.
#[verifier::rlimit(100)]
fn trimmed(piece: &String) -> (r: (String, usize))
    requires
        piece@.len() <= usize::MAX / 8,
    ensures
        r.0@ == trim(piece@),
        r.1 == byte_len(trim(piece@)),
        r.0@.len() <= piece@.len(),
        r.1 <= 4 * piece@.len(),
{
    let s = piece.as_str();
    let n = s.unicode_len();
    let mut a: usize = 0;
    assert(s@.subrange(0, n as int) =~= s@);
    while a < n && is_whitespace(s.get_char(a))
        invariant
            a <= n,
            n == s@.len(),
            trim_start(s@) == trim_start(s@.subrange(a as int, n as int)),
        decreases n - a,
    {
        assert(s@.subrange(a as int, n as int).drop_first() =~= s@.subrange(a + 1, n as int));
        a += 1;
    }
    assert(trim_start(s@) == s@.subrange(a as int, n as int));
    let mut b: usize = n;
    let ghost front = s@.subrange(a as int, n as int);
    assert(front.subrange(0, (b - a) as int) =~= front);
    while b > a && is_whitespace(s.get_char(b - 1))
        invariant
            a <= b <= n,
            n == s@.len(),
            front == s@.subrange(a as int, n as int),
            trim_end(front) == trim_end(s@.subrange(a as int, b as int)),
        decreases b,
    {
        assert(s@.subrange(a as int, b as int).drop_last() =~= s@.subrange(a as int, b - 1));
        b -= 1;
    }
    let w = s.substring_char(a, b);
    let mut bytes: usize = 0;
    let mut i: usize = 0;
    assert(w@.subrange(0, 0) =~= Seq::<char>::empty());
    while i < w.unicode_len()
        invariant
            i <= w@.len(),
            w@.len() <= n,
            n <= usize::MAX / 8,
            bytes == byte_len(w@.subrange(0, i as int)),
            bytes <= 4 * i,
        decreases w@.len() - i,
    {
        assert(w@.subrange(0, i + 1).drop_last() =~= w@.subrange(0, i as int));
        bytes = bytes + char_bytes(w.get_char(i));
        i += 1;
    }
    assert(w@.subrange(0, i as int) =~= w@);
    (w.to_owned(), bytes)
}

/// Lays out a room description for display (see `formatted`).
pub fn format_description(description: &str) -> (r: String)
    requires
        description@.len() <= usize::MAX / 16,
    ensures
        r@ == formatted(description@),
{
    let s = description;
    let n = s.unicode_len();
    let mut out = String::from_str("    ");
    proof {
        reveal_strlit("    ");
        assert(out@ =~= indent());
    }
    let mut width: usize = INDENT;
    let mut piece = String::new();
    let mut newline = false;
    let mut i: usize = 0;
    assert(s@.take(0) =~= Seq::<char>::empty());
    while i < n
        invariant
            n == s@.len(),
            n <= usize::MAX / 16,
            i <= n,
            piece@.len() <= i,
            width <= 4 * i + 4 * LINE_WIDTH,
            layout(s@.take(i as int)) == (Layout { out: out@, width: width as nat, piece: piece@, newline }),
        decreases n - i,
    {
        let c = s.get_char(i);
        let ghost t = s@.take(i as int + 1);
        assert(t.drop_last() =~= s@.take(i as int));
        assert(t.last() == c);
        if c == '\n' && newline {
            push_char(&mut out, '\n');
            push_char(&mut out, '\n');
            out.append("    ");
            proof {
                reveal_strlit("    ");
            }
            width = INDENT;
            piece = String::new();
            newline = false;
            assert(out@ =~= layout(s@.take(i as int)).out + seq!['\n', '\n'] + indent());
        } else if c == '\n' || c == ' ' {
            let ghost before = Layout { out: out@, width: width as nat, piece: piece@, newline };
            let (w, wlen) = trimmed(&piece);
            if w.unicode_len() > 0 {
                if width + wlen > LINE_WIDTH {
                    push_char(&mut out, '\n');
                    out.append("    ");
                    proof {
                        reveal_strlit("    ");
                    }
                    out.append(w.as_str());
                    push_char(&mut out, ' ');
                    width = INDENT + wlen + 1;
                    assert(out@ =~= before.out + seq!['\n'] + indent() + w@ + seq![' ']);
                } else {
                    out.append(w.as_str());
                    push_char(&mut out, ' ');
                    width = width + wlen + 1;
                    assert(out@ =~= before.out + w@ + seq![' ']);
                }
            }
            piece = String::new();
            newline = c == '\n';
        } else {
            push_char(&mut piece, c);
            newline = false;
        }
        i += 1;
    }
    assert(s@.take(n as int) =~= s@);
    let (w, wlen) = trimmed(&piece);
    if w.unicode_len() > 0 {
        if width + wlen > LINE_WIDTH {
            push_char(&mut out, '\n');
            out.append("    ");
            proof {
                reveal_strlit("    ");
            }
            out.append(w.as_str());
            push_char(&mut out, ' ');
        } else {
            out.append(w.as_str());
            push_char(&mut out, ' ');
        }
    }
    push_char(&mut out, '\n');
    push_char(&mut out, '\n');
    assert(out@ =~= formatted(s@));
    out
}

} // verus!
