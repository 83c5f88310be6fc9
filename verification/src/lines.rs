//! The posting-file line format.
//!
//! A posting file is a sequence of newline-terminated document paths. One
//! appended record is the path followed by a newline; a read splits the file
//! text at newlines, keeping interior empty lines and dropping the empty
//! fragment after a final newline.

use vstd::prelude::*;

verus! {

/// The lines of `text`, where `acc` holds the characters of the line begun
/// just before `text`.
pub open spec fn lines_from(text: Seq<char>, acc: Seq<char>) -> Seq<Seq<char>>
    decreases text.len(),
{
    if text.len() == 0 {
        if acc.len() == 0 {
            Seq::<Seq<char>>::empty()
        } else {
            seq![acc]
        }
    } else if text[0] == '\n' {
        seq![acc] + lines_from(text.drop_first(), Seq::<char>::empty())
    } else {
        lines_from(text.drop_first(), acc.push(text[0]))
    }
}

/// The lines of a posting file's text.
pub open spec fn lines_of(text: Seq<char>) -> Seq<Seq<char>> {
    lines_from(text, Seq::<char>::empty())
}

/// The lines of `text`, as `lines_of` describes them.
pub fn parse_lines(text: &str) -> (r: Vec<String>)
    ensures
        r@.map_values(|l: String| l@) == lines_of(text@),
{
    let mut r: Vec<String> = Vec::new();
    let mut start: usize = 0;
    let n = text.unicode_len();
    proof {
        assert(text@.subrange(0, n as int) =~= text@);
        assert(text@.subrange(0, 0) =~= Seq::<char>::empty());
    }
    for i in 0..n
        invariant
            n == text@.len(),
            start <= i <= n,
            lines_of(text@) == r@.map_values(|l: String| l@) + lines_from(
                text@.subrange(i as int, n as int),
                text@.subrange(start as int, i as int),
            ),
    {
        let ghost rest = text@.subrange(i as int, n as int);
        let ghost acc = text@.subrange(start as int, i as int);
        proof {
            assert(rest[0] == text@[i as int]);
            assert(rest.drop_first() =~= text@.subrange(i as int + 1, n as int));
        }
        let c = text.get_char(i);
        if c == '\n' {
            let line = text.substring_char(start, i).to_owned();
            let ghost r_before = r@;
            r.push(line);
            start = i + 1;
            proof {
                assert(text@.subrange(i as int + 1, i as int + 1) =~= Seq::<char>::empty());
                assert(r@.map_values(|l: String| l@) =~= r_before.map_values(|l: String| l@).push(
                    acc,
                ));
                assert(r_before.map_values(|l: String| l@).push(acc) + lines_from(
                    rest.drop_first(),
                    Seq::<char>::empty(),
                ) =~= r_before.map_values(|l: String| l@) + (seq![acc] + lines_from(
                    rest.drop_first(),
                    Seq::<char>::empty(),
                )));
            }
        } else {
            proof {
                assert(acc.push(rest[0]) =~= text@.subrange(start as int, i as int + 1));
            }
        }
    }
    proof {
        assert(text@.subrange(n as int, n as int) =~= Seq::<char>::empty());
    }
    if start < n {
        let line = text.substring_char(start, n).to_owned();
        let ghost r_before = r@;
        r.push(line);
        proof {
            assert(r@.map_values(|l: String| l@) =~= r_before.map_values(|l: String| l@).push(
                text@.subrange(start as int, n as int),
            ));
            assert(r_before.map_values(|l: String| l@) + seq![
                text@.subrange(start as int, n as int),
            ] =~= r@.map_values(|l: String| l@));
        }
    } else {
        proof {
            assert(text@.subrange(start as int, n as int).len() == 0);
            assert(r@.map_values(|l: String| l@) + Seq::<Seq<char>>::empty() =~= r@.map_values(
                |l: String| l@,
            ));
        }
    }
    r
}

/// A record without newlines, terminated by one newline, reads as one line.
proof fn lemma_terminal_record(value: Seq<char>, acc: Seq<char>)
    requires
        !value.contains('\n'),
    ensures
        lines_from(value + seq!['\n'], acc) == seq![acc + value],
    decreases value.len(),
{
    let text = value + seq!['\n'];
    if value.len() == 0 {
        assert(text =~= seq!['\n']);
        assert(text[0] == '\n');
        assert(text.drop_first() =~= Seq::<char>::empty());
        assert(lines_from(text, acc) == seq![acc] + lines_from(
            Seq::<char>::empty(),
            Seq::<char>::empty(),
        ));
        assert(seq![acc] + Seq::<Seq<char>>::empty() =~= seq![acc]);
        assert(acc + value =~= acc);
        assert(seq![acc + value] =~= seq![acc]);
    } else {
        if value[0] == '\n' {
            assert(value.contains('\n'));
        }
        assert(text[0] == value[0]);
        assert(text.drop_first() =~= value.drop_first() + seq!['\n']);
        if value.drop_first().contains('\n') {
            let i = choose|i: int|
                0 <= i < value.drop_first().len() && value.drop_first()[i] == '\n';
            assert(value[i + 1] == '\n');
            assert(value.contains('\n'));
        }
        lemma_terminal_record(value.drop_first(), acc.push(value[0]));
        assert(acc.push(value[0]) + value.drop_first() =~= acc + value);
    }
}

/// Appending one newline-free record to a text that holds only whole records
/// appends exactly one line.
proof fn lemma_lines_from_append(text: Seq<char>, acc: Seq<char>, value: Seq<char>)
    requires
        !value.contains('\n'),
        text.len() == 0 ==> acc.len() == 0,
        text.len() > 0 ==> text.last() == '\n',
    ensures
        lines_from(text + value + seq!['\n'], acc) == lines_from(text, acc).push(value),
    decreases text.len(),
{
    if text.len() == 0 {
        assert(text + value + seq!['\n'] =~= value + seq!['\n']);
        lemma_terminal_record(value, acc);
        assert(acc + value =~= value);
        assert(seq![value] =~= lines_from(text, acc).push(value));
    } else {
        let whole = text + value + seq!['\n'];
        assert(whole[0] == text[0]);
        assert(whole.drop_first() =~= text.drop_first() + value + seq!['\n']);
        if text[0] == '\n' {
            if text.len() > 1 {
                assert(text.drop_first().last() == text.last());
            }
            lemma_lines_from_append(text.drop_first(), Seq::<char>::empty(), value);
            assert(seq![acc] + lines_from(text.drop_first(), Seq::<char>::empty()).push(value)
                =~= (seq![acc] + lines_from(text.drop_first(), Seq::<char>::empty())).push(value));
        } else {
            assert(text.len() > 1);
            assert(text.drop_first().last() == text.last());
            lemma_lines_from_append(text.drop_first(), acc.push(text[0]), value);
        }
    }
}

/// Law: posting files grow by whole newline-terminated records, so appending
/// one record for a newline-free document path to a file that is empty or
/// newline-terminated adds exactly that path as one more line on a read.
pub proof fn lemma_append_record_reads_as_one_line(content: Seq<char>, value: Seq<char>)
    requires
        !value.contains('\n'),
        content.len() == 0 || content.last() == '\n',
    ensures
        lines_of(content + value + seq!['\n']) == lines_of(content).push(value),
{
    lemma_lines_from_append(content, Seq::<char>::empty(), value);
}

/// One appended posting record: the document path and a terminating newline.
pub fn render_line(value: &str) -> (r: String)
    ensures
        r@ == value@ + seq!['\n'],
{
    let r = value.to_owned().concat("\n");
    proof {
        reveal_strlit("\n");
        assert(r@ =~= value@ + seq!['\n']);
    }
    r
}

} // verus!
