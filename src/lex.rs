use vstd::prelude::*;
use vstd::std_specs::iter::IteratorSpec;

verus! {

/// Unicode white space, as `char::is_whitespace` classifies it.
pub open spec fn is_space(c: char) -> bool {
    let u = c as u32;
    u == 0x20 || (0x09 <= u && u <= 0x0d) || u == 0x85 || u == 0xa0 || u == 0x1680 || (0x2000 <= u
        && u <= 0x200a) || u == 0x2028 || u == 0x2029 || u == 0x202f || u == 0x205f || u == 0x3000
}

/// White space that separates the fields of a line: anything but a line break.
pub open spec fn is_gap(c: char) -> bool {
    is_space(c) && c != '\r' && c != '\n'
}

/// Whether `c` is white space.
pub fn space(c: char) -> (r: bool)
    ensures
        r == is_space(c),
{
    let u = c as u32;
    u == 0x20 || (0x09 <= u && u <= 0x0d) || u == 0x85 || u == 0xa0 || u == 0x1680 || (0x2000 <= u
        && u <= 0x200a) || u == 0x2028 || u == 0x2029 || u == 0x202f || u == 0x205f || u == 0x3000
}

/// Whether `c` separates fields.
pub fn gap(c: char) -> (r: bool)
    ensures
        r == is_gap(c),
{
    space(c) && c != '\r' && c != '\n'
}

/// The pieces of `s` between line feeds, in order; there is one more piece
/// than there are line feeds.
pub open spec fn pieces(s: Seq<char>) -> Seq<Seq<char>>
    decreases s.len(),
{
    if s.len() == 0 {
        seq![Seq::empty()]
    } else {
        let p = pieces(s.drop_last());
        if s.last() == '\n' {
            p.push(Seq::empty())
        } else {
            p.update(p.len() - 1, p.last().push(s.last()))
        }
    }
}

pub proof fn lemma_pieces_nonempty(s: Seq<char>)
    ensures
        pieces(s).len() >= 1,
    decreases s.len(),
{
    if s.len() > 0 {
        lemma_pieces_nonempty(s.drop_last());
    }
}

/// `l` without one carriage return at its end.
pub open spec fn strip_cr(l: Seq<char>) -> Seq<char> {
    if l.len() > 0 && l.last() == '\r' {
        l.drop_last()
    } else {
        l
    }
}

/// The lines of `s`: a line ends at a line feed, which may be preceded by a
/// carriage return (`\n` and `\r\n` both end a line); the last line is what
/// follows the last line feed.
pub open spec fn lines(s: Seq<char>) -> Seq<Seq<char>> {
    let p = pieces(s);
    Seq::new(p.len(), |i: int| if i + 1 < p.len() { strip_cr(p[i]) } else { p[i] })
}

/// The maximal runs of non-space characters of `s`, in order.
pub open spec fn words(s: Seq<char>) -> Seq<Seq<char>>
    decreases s.len(),
{
    if s.len() == 0 {
        Seq::empty()
    } else {
        let w = words(s.drop_last());
        if is_space(s.last()) {
            w
        } else if s.len() >= 2 && !is_space(s[s.len() - 2]) {
            w.update(w.len() - 1, w.last().push(s.last()))
        } else {
            w.push(seq![s.last()])
        }
    }
}

pub proof fn lemma_words_nonempty(s: Seq<char>)
    requires
        s.len() > 0,
        !is_space(s.last()),
    ensures
        words(s).len() >= 1,
    decreases s.len(),
{
    if s.len() >= 2 && !is_space(s[s.len() - 2]) {
        lemma_words_nonempty(s.drop_last());
    }
}

/// Every space of `s` separates fields, and `s` neither starts nor ends with one.
pub open spec fn well_spaced(s: Seq<char>) -> bool {
    &&& forall|i: int| 0 <= i < s.len() && is_space(#[trigger] s[i]) ==> is_gap(s[i])
    &&& s.len() > 0 ==> !is_space(s[0]) && !is_space(s.last())
}

/// A non-empty run of characters none of which is white space.
pub open spec fn is_ident(w: Seq<char>) -> bool {
    w.len() > 0 && forall|i: int| 0 <= i < w.len() ==> !is_space(#[trigger] w[i])
}

/// The words `ws` apart by single spaces.
pub open spec fn spaced_join(ws: Seq<Seq<char>>) -> Seq<char>
    decreases ws.len(),
{
    if ws.len() == 0 {
        Seq::empty()
    } else if ws.len() == 1 {
        ws[0]
    } else {
        spaced_join(ws.drop_last()) + seq![' '] + ws.last()
    }
}

/// The lines `ls`, each followed by a line feed.
pub open spec fn joined_lines(ls: Seq<Seq<char>>) -> Seq<char>
    decreases ls.len(),
{
    if ls.len() == 0 {
        Seq::empty()
    } else {
        joined_lines(ls.drop_last()) + ls.last() + seq!['\n']
    }
}

/// Every space of `s` is a plain space.
pub open spec fn plain_spaces(s: Seq<char>) -> bool {
    forall|i: int| 0 <= i < s.len() && is_space(#[trigger] s[i]) ==> s[i] == ' '
}

proof fn lemma_pieces_append(a: Seq<char>, b: Seq<char>)
    requires
        forall|i: int| 0 <= i < b.len() ==> b[i] != '\n',
    ensures
        pieces(a + b) == pieces(a).update(pieces(a).len() - 1, pieces(a).last() + b),
    decreases b.len(),
{
    lemma_pieces_nonempty(a);
    if b.len() == 0 {
        assert(a + b =~= a);
        assert(pieces(a).last() + b =~= pieces(a).last());
        assert(pieces(a).update(pieces(a).len() - 1, pieces(a).last()) =~= pieces(a));
    } else {
        let b0 = b.drop_last();
        lemma_pieces_append(a, b0);
        assert((a + b).drop_last() =~= a + b0);
        assert((pieces(a).last() + b0).push(b.last()) =~= pieces(a).last() + b);
        assert(pieces(a + b) =~= pieces(a).update(pieces(a).len() - 1, pieces(a).last() + b));
    }
}

proof fn lemma_pieces_joined(ls: Seq<Seq<char>>)
    requires
        forall|k: int, i: int| 0 <= k < ls.len() && 0 <= i < ls[k].len() ==> #[trigger] ls[k][i]
            != '\n',
    ensures
        pieces(joined_lines(ls)) == ls.push(Seq::empty()),
    decreases ls.len(),
{
    if ls.len() == 0 {
        assert(pieces(Seq::empty()) =~= seq![Seq::<char>::empty()]);
        assert(ls.push(Seq::empty()) =~= seq![Seq::<char>::empty()]);
    } else {
        let p = ls.drop_last();
        lemma_pieces_joined(p);
        let a = joined_lines(p);
        let l = ls.last();
        assert forall|i: int| 0 <= i < l.len() implies l[i] != '\n' by {
            assert(ls[ls.len() - 1][i] != '\n');
        }
        lemma_pieces_append(a, l);
        assert(Seq::<char>::empty() + l =~= l);
        let s = a + l + seq!['\n'];
        assert(s.drop_last() =~= a + l);
        assert(pieces(s) =~= ls.push(Seq::empty()));
    }
}

/// Lines made of words apart by plain spaces, each followed by a line feed,
/// read back as those lines and a last empty one.
pub proof fn lemma_lines_joined(ls: Seq<Seq<char>>)
    requires
        forall|k: int| 0 <= k < ls.len() ==> plain_spaces(#[trigger] ls[k]),
    ensures
        lines(joined_lines(ls)) == ls.push(Seq::empty()),
{
    assert forall|k: int, i: int| 0 <= k < ls.len() && 0 <= i < ls[k].len() implies #[trigger] ls[k][i]
        != '\n' by {
        assert(plain_spaces(ls[k]));
        assert(is_space('\n'));
    }
    lemma_pieces_joined(ls);
    assert forall|k: int| 0 <= k < ls.len() implies strip_cr(#[trigger] ls[k]) == ls[k] by {
        assert(plain_spaces(ls[k]));
        assert(is_space('\r'));
    }
    assert(lines(joined_lines(ls)) =~= ls.push(Seq::empty()));
}

proof fn lemma_words_append_word(a: Seq<char>, b: Seq<char>)
    requires
        is_ident(b),
        a.len() == 0 || is_space(a.last()),
    ensures
        words(a + b) == words(a).push(b),
    decreases b.len(),
{
    let s = a + b;
    assert(s.drop_last() =~= a + b.drop_last());
    assert(is_space(s.last()) == false) by {
        assert(s.last() == b[b.len() - 1]);
    }
    if b.len() == 1 {
        assert(a + b.drop_last() =~= a);
        assert(seq![s.last()] =~= b);
    } else {
        let b0 = b.drop_last();
        assert(is_ident(b0)) by {
            assert forall|i: int| 0 <= i < b0.len() implies !is_space(#[trigger] b0[i]) by {
                assert(b0[i] == b[i]);
            }
        }
        lemma_words_append_word(a, b0);
        assert(s[s.len() - 2] == b[b.len() - 2]);
        assert(b0.push(s.last()) =~= b);
    }
}

/// Words apart by single spaces read back as those words, and the line is
/// well spaced.
pub proof fn lemma_words_joined(ws: Seq<Seq<char>>)
    requires
        ws.len() > 0,
        forall|k: int| 0 <= k < ws.len() ==> is_ident(#[trigger] ws[k]),
    ensures
        words(spaced_join(ws)) == ws,
        well_spaced(spaced_join(ws)),
        plain_spaces(spaced_join(ws)),
        is_space(spaced_join(ws)[0]) == false,
        is_space(spaced_join(ws).last()) == false,
    decreases ws.len(),
{
    let s = spaced_join(ws);
    let l = ws.last();
    assert(is_ident(l));
    assert(!is_space(l[l.len() - 1]));
    if ws.len() == 1 {
        lemma_words_append_word(Seq::empty(), l);
        assert(Seq::<char>::empty() + l =~= l);
        assert(seq![l] =~= ws);
        assert(words(Seq::<char>::empty()) =~= Seq::<Seq<char>>::empty());
        assert(Seq::<Seq<char>>::empty().push(l) =~= ws);
    } else {
        let p = ws.drop_last();
        assert forall|k: int| 0 <= k < p.len() implies is_ident(#[trigger] p[k]) by {
            assert(p[k] == ws[k]);
        }
        lemma_words_joined(p);
        let a = spaced_join(p);
        let a1 = a + seq![' '];
        assert(a1.drop_last() =~= a);
        assert(is_space(' '));
        assert(words(a1) == words(a));
        lemma_words_append_word(a1, l);
        assert(p.push(l) =~= ws);
        assert(s == a1 + l);
        assert forall|i: int| 0 <= i < s.len() && is_space(#[trigger] s[i]) implies s[i] == ' ' by {
            if i < a.len() {
                assert(s[i] == a[i]);
            } else if i > a.len() {
                assert(s[i] == l[i - a.len() - 1]);
            }
        }
        assert(s[0] == a[0]);
        assert(s.last() == l.last());
    }
}

/// Every word of `s` is an identifier.
pub proof fn lemma_words_are_idents(s: Seq<char>)
    ensures
        forall|k: int| 0 <= k < words(s).len() ==> is_ident(#[trigger] words(s)[k]),
    decreases s.len(),
{
    if s.len() > 0 {
        let p = s.drop_last();
        lemma_words_are_idents(p);
        let w = words(p);
        if !is_space(s.last()) {
            if s.len() >= 2 && !is_space(s[s.len() - 2]) {
                lemma_words_nonempty(p);
                let u = w.last().push(s.last());
                assert(is_ident(w[w.len() - 1]));
                assert forall|i: int| 0 <= i < u.len() implies !is_space(#[trigger] u[i]) by {
                    if i < u.len() - 1 {
                        assert(u[i] == w[w.len() - 1][i]);
                    }
                }
                assert(is_ident(u));
            } else {
                assert(is_ident(seq![s.last()]));
            }
        }
    }
}

/// Joining one more word adds a space and the word.
pub proof fn lemma_join_push(ws: Seq<Seq<char>>, w: Seq<char>)
    requires
        ws.len() > 0,
    ensures
        spaced_join(ws.push(w)) == spaced_join(ws) + seq![' '] + w,
{
    assert(ws.push(w).drop_last() =~= ws);
}

/// Joining one more line adds the line and a line feed.
pub proof fn lemma_joined_prefix(ls: Seq<Seq<char>>, k: int)
    requires
        0 <= k < ls.len(),
    ensures
        joined_lines(ls.subrange(0, k + 1)) == joined_lines(ls.subrange(0, k)) + ls[k] + seq!['\n'],
{
    assert(ls.subrange(0, k + 1).drop_last() =~= ls.subrange(0, k));
}

/// Appends the characters of `s` to `out`.
pub fn append(out: &mut String, s: &String)
    ensures
        final(out)@ == old(out)@ + s@,
{
    let cs = chars_of(s.as_str());
    let mut i: usize = 0;
    while i < cs.len()
        invariant
            cs@ == s@,
            i <= cs@.len(),
            out@ == old(out)@ + cs@.subrange(0, i as int),
        decreases cs@.len() - i,
    {
        push_char(out, cs[i]);
        i = i + 1;
        assert(out@ =~= old(out)@ + cs@.subrange(0, i as int));
    }
    assert(cs@.subrange(0, i as int) =~= cs@);
}

/// The words of `ws` apart by single spaces.
pub fn join_words(ws: &Vec<String>) -> (r: String)
    requires
        ws@.len() > 0,
    ensures
        r@ == spaced_join(texts(ws@)),
{
    let mut out = ws[0].clone();
    let mut i: usize = 1;
    proof {
        assert(texts(ws@).subrange(0, 1) =~= seq![ws@[0]@]);
    }
    while i < ws.len()
        invariant
            1 <= i <= ws@.len(),
            out@ == spaced_join(texts(ws@).subrange(0, i as int)),
        decreases ws@.len() - i,
    {
        proof {
            let t = texts(ws@);
            lemma_join_push(t.subrange(0, i as int), t[i as int]);
            assert(t.subrange(0, i as int).push(t[i as int]) =~= t.subrange(0, i + 1));
        }
        push_char(&mut out, ' ');
        append(&mut out, &ws[i]);
        i = i + 1;
    }
    assert(texts(ws@).subrange(0, i as int) =~= texts(ws@));
    out
}

/// Relies on `String::push`: appends one character.
#[verifier::external_body]
pub(crate) fn push_char(s: &mut String, c: char)
    ensures
        final(s)@ == old(s)@.push(c),
{
    s.push(c)
}

/// The characters of `s`.
pub fn chars_of(s: &str) -> (r: Vec<char>)
    ensures
        r@ == s@,
{
    let mut it = s.chars();
    let mut out: Vec<char> = Vec::new();
    loop
        invariant
            out@ + it.remaining() == s@,
            it.obeys_prophetic_iter_laws(),
            it.decrease() is Some,
        ensures
            out@ == s@,
        decreases it.decrease()->0,
    {
        match it.next() {
            Some(c) => {
                out.push(c);
                proof {
                    assert(out@ + it.remaining() =~= s@);
                }
            },
            None => {
                assert(out@ =~= s@);
                break ;
            },
        }
    }
    out
}

/// The texts of a sequence of strings.
pub open spec fn texts(v: Seq<String>) -> Seq<Seq<char>> {
    v.map_values(|s: String| s@)
}

/// The lines of `cs`, as `lines` describes them.
pub fn split_lines(cs: &Vec<char>) -> (r: Vec<Vec<char>>)
    ensures
        line_texts(r@) == lines(cs@),
{
    let mut done: Vec<Vec<char>> = Vec::new();
    let mut cur: Vec<char> = Vec::new();
    let mut i: usize = 0;
    while i < cs.len()
        invariant
            i <= cs@.len(),
            ({
                let p = pieces(cs@.subrange(0, i as int));
                &&& p.len() == done@.len() + 1
                &&& forall|j: int| 0 <= j < done@.len() ==> (#[trigger] done@[j])@ == strip_cr(p[j])
                &&& cur@ == p.last()
            }),
        decreases cs@.len() - i,
    {
        let c = cs[i];
        proof {
            assert(cs@.subrange(0, i + 1).drop_last() =~= cs@.subrange(0, i as int));
        }
        if c == '\n' {
            let mut line = cur;
            let n = line.len();
            if n > 0 && line[n - 1] == '\r' {
                line.pop();
                proof {
                    assert(line@ =~= strip_cr(pieces(cs@.subrange(0, i as int)).last()));
                }
            }
            done.push(line);
            cur = Vec::new();
        } else {
            cur.push(c);
        }
        i = i + 1;
    }
    proof {
        assert(cs@.subrange(0, i as int) =~= cs@);
    }
    done.push(cur);
    assert(line_texts(done@) =~= lines(cs@));
    done
}

/// The characters of each line.
pub open spec fn line_texts(v: Seq<Vec<char>>) -> Seq<Seq<char>> {
    v.map_values(|l: Vec<char>| l@)
}

/// A string holding the characters of `cs`.
pub fn string_of(cs: &Vec<char>) -> (r: String)
    ensures
        r@ == cs@,
{
    let mut r = String::new();
    let mut i: usize = 0;
    while i < cs.len()
        invariant
            i <= cs@.len(),
            r@ == cs@.subrange(0, i as int),
        decreases cs@.len() - i,
    {
        push_char(&mut r, cs[i]);
        i = i + 1;
        assert(r@ =~= cs@.subrange(0, i as int));
    }
    assert(r@ =~= cs@);
    r
}

/// The words of `line`, as `words` describes them.
pub fn words_of(line: &Vec<char>) -> (r: Vec<String>)
    ensures
        texts(r@) == words(line@),
{
    let mut done: Vec<String> = Vec::new();
    let mut cur: String = String::new();
    let mut i: usize = 0;
    while i < line.len()
        invariant
            i <= line@.len(),
            ({
                let w = words(line@.subrange(0, i as int));
                if i > 0 && !is_space(line@[i - 1]) {
                    w == texts(done@).push(cur@)
                } else {
                    w == texts(done@) && cur@.len() == 0
                }
            }),
        decreases line@.len() - i,
    {
        let c = line[i];
        let ghost before = texts(done@);
        proof {
            assert(line@.subrange(0, i + 1).drop_last() =~= line@.subrange(0, i as int));
        }
        let in_word = i > 0 && !space(line[i - 1]);
        if space(c) {
            if in_word {
                done.push(cur);
                cur = String::new();
                proof {
                    assert(texts(done@) =~= before.push(texts(done@).last()));
                }
            }
        } else {
            push_char(&mut cur, c);
            proof {
                if !in_word {
                    assert(cur@ =~= seq![c]);
                }
            }
        }
        i = i + 1;
    }
    proof {
        assert(line@.subrange(0, i as int) =~= line@);
    }
    if i > 0 && !space(line[i - 1]) {
        let ghost before = texts(done@);
        done.push(cur);
        proof {
            assert(texts(done@) =~= before.push(texts(done@).last()));
        }
    }
    done
}

/// Whether `line` is well spaced.
pub fn spaced(line: &Vec<char>) -> (r: bool)
    ensures
        r == well_spaced(line@),
{
    let n = line.len();
    if n > 0 && (space(line[0]) || space(line[n - 1])) {
        return false;
    }
    let mut i: usize = 0;
    while i < n
        invariant
            n == line@.len(),
            i <= n,
            forall|j: int| 0 <= j < i && is_space(#[trigger] line@[j]) ==> is_gap(line@[j]),
        decreases n - i,
    {
        if space(line[i]) && !gap(line[i]) {
            return false;
        }
        i = i + 1;
    }
    true
}

} // verus!
