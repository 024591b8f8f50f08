use vstd::prelude::*;

verus! {

/// The pieces of `s` between its newline characters, in order; a text
/// with `n` newlines has `n + 1` pieces (the empty text has one, empty).
pub open spec fn split_newlines(s: Seq<char>) -> Seq<Seq<char>>
    decreases s.len(),
{
    if s.len() == 0 {
        seq![Seq::empty()]
    } else {
        let before = split_newlines(s.drop_last());
        if s.last() == '\n' {
            before.push(Seq::empty())
        } else {
            before.update(before.len() - 1, before.last().push(s.last()))
        }
    }
}

/// Appends `c` to the end of `s` (`String::push`).
#[verifier::external_body]
fn push_char(s: &mut String, c: char)
    ensures
        final(s)@ == old(s)@.push(c),
{
    s.push(c);
}

/// Splits `text` at each newline character, as `text.split("\n")` does.
pub fn split_lines(text: &str) -> (lines: Vec<String>)
    ensures
        lines@.map_values(|l: String| l@) == split_newlines(text@),
{
    let mut lines: Vec<String> = Vec::new();
    let mut current = String::new();
    for c in it: text.chars()
        invariant
            it.seq() == text@,
            lines@.map_values(|l: String| l@).push(current@) == split_newlines(text@.take(it.index())),
    {
        let ghost done = text@.take(it.index());
        assert(text@.take(it.index() + 1).drop_last() =~= done);
        let ghost before = split_newlines(done);
        assert(before.len() >= 1) by { lemma_split_nonempty(done); }
        if c == '\n' {
            lines.push(current);
            current = String::new();
            assert(lines@.map_values(|l: String| l@).push(current@) =~= before.push(Seq::empty()));
        } else {
            push_char(&mut current, c);
            assert(lines@.map_values(|l: String| l@).push(current@)
                =~= before.update(before.len() - 1, before.last().push(c)));
        }
    }
    assert(text@.take(text@.len() as int) =~= text@);
    lines.push(current);
    lines
}

/// Splitting gives at least one piece.
pub proof fn lemma_split_nonempty(s: Seq<char>)
    ensures
        split_newlines(s).len() >= 1,
    decreases s.len(),
{
    if s.len() > 0 {
        lemma_split_nonempty(s.drop_last());
    }
}

/// The pieces joined back together with a newline between each two.
pub open spec fn join_newlines(pieces: Seq<Seq<char>>) -> Seq<char>
    decreases pieces.len(),
{
    if pieces.len() == 0 {
        Seq::empty()
    } else if pieces.len() == 1 {
        pieces[0]
    } else {
        join_newlines(pieces.drop_last()) + seq!['\n'] + pieces.last()
    }
}

/// Splitting at the newlines loses nothing: the pieces hold no newline, and
/// joining them with newlines gives back the text.
pub proof fn law_split_round_trip(s: Seq<char>)
    ensures
        join_newlines(split_newlines(s)) == s,
        forall|i: int, j: int| 0 <= i < split_newlines(s).len() && 0 <= j < split_newlines(s)[i].len()
            ==> #[trigger] split_newlines(s)[i][j] != '\n',
    decreases s.len(),
{
    if s.len() == 0 {
        assert(split_newlines(s) =~= seq![Seq::<char>::empty()]);
        assert(s =~= Seq::<char>::empty());
    } else {
        let p = s.drop_last();
        let c = s.last();
        let before = split_newlines(p);
        law_split_round_trip(p);
        lemma_split_nonempty(p);
        assert(p.push(c) =~= s);
        let after = split_newlines(s);
        if c == '\n' {
            assert(after.drop_last() =~= before);
            assert(join_newlines(after) =~= p + seq!['\n'] + Seq::<char>::empty());
        } else {
            let last = before.last().push(c);
            assert(after == before.update(before.len() - 1, last));
            if before.len() == 1 {
                assert(join_newlines(before) == before[0]);
                assert(after.len() == 1);
                assert(join_newlines(after) == after[0]);
            } else {
                assert(after.drop_last() =~= before.drop_last());
                assert(join_newlines(after) == join_newlines(before.drop_last()) + seq!['\n'] + last);
                assert(join_newlines(after) =~= (join_newlines(before.drop_last()) + seq!['\n'] + before.last()).push(c));
            }
            assert forall|i: int, j: int| 0 <= i < after.len() && 0 <= j < after[i].len()
                implies #[trigger] after[i][j] != '\n' by {
                if i == after.len() - 1 && j == after[i].len() - 1 {
                    assert(after[i][j] == c);
                } else if i == after.len() - 1 {
                    assert(after[i][j] == before[i][j]);
                } else {
                    assert(after[i] == before[i]);
                }
            }
        }
    }
}

/// A text without newline is one piece.
pub proof fn lemma_split_no_newline(s: Seq<char>)
    requires
        forall|i: int| 0 <= i < s.len() ==> s[i] != '\n',
    ensures
        split_newlines(s) == seq![s],
    decreases s.len(),
{
    if s.len() == 0 {
        assert(s =~= Seq::<char>::empty());
    } else {
        lemma_split_no_newline(s.drop_last());
        assert(s.drop_last().push(s.last()) =~= s);
        assert(split_newlines(s) =~= seq![s]);
    }
}

/// Splitting two texts joined by a newline gives the pieces of the first
/// followed by the pieces of the second.
pub proof fn law_split_concat(a: Seq<char>, b: Seq<char>)
    ensures
        split_newlines(a + seq!['\n'] + b) == split_newlines(a) + split_newlines(b),
    decreases b.len(),
{
    let s = a + seq!['\n'] + b;
    if b.len() == 0 {
        assert(s.drop_last() =~= a);
        assert(split_newlines(b) =~= seq![Seq::<char>::empty()]);
        assert(split_newlines(s) =~= split_newlines(a) + split_newlines(b));
    } else {
        let b0 = b.drop_last();
        let c = b.last();
        law_split_concat(a, b0);
        lemma_split_nonempty(a);
        lemma_split_nonempty(b0);
        assert(s.drop_last() =~= a + seq!['\n'] + b0);
        assert(s.last() == c);
        let x = split_newlines(a) + split_newlines(b0);
        if c == '\n' {
            assert(split_newlines(s) =~= split_newlines(a) + split_newlines(b));
        } else {
            let y = split_newlines(b0);
            assert(split_newlines(b) == y.update(y.len() - 1, y.last().push(c)));
            assert(x.last() == y.last());
            assert(split_newlines(s) == x.update(x.len() - 1, x.last().push(c)));
            assert(split_newlines(s) =~= split_newlines(a) + split_newlines(b));
        }
    }
}

/// Joining pieces that hold no newline and splitting the result gives the
/// pieces back.
pub proof fn law_join_split(pieces: Seq<Seq<char>>)
    requires
        pieces.len() >= 1,
        forall|i: int, j: int| 0 <= i < pieces.len() && 0 <= j < pieces[i].len() ==> #[trigger] pieces[i][j] != '\n',
    ensures
        split_newlines(join_newlines(pieces)) == pieces,
    decreases pieces.len(),
{
    let last = pieces.last();
    assert forall|j: int| 0 <= j < last.len() implies last[j] != '\n' by {
        assert(pieces[pieces.len() - 1][j] != '\n');
    }
    lemma_split_no_newline(last);
    if pieces.len() == 1 {
        assert(pieces =~= seq![last]);
    } else {
        let front = pieces.drop_last();
        assert forall|i: int, j: int| 0 <= i < front.len() && 0 <= j < front[i].len()
            implies #[trigger] front[i][j] != '\n' by {
            assert(front[i] == pieces[i]);
        }
        law_join_split(front);
        law_split_concat(join_newlines(front), last);
        assert(pieces =~= front + seq![last]);
    }
}

} // verus!
