//! What holds of endpoint tables.

use crate::chars::split;
use crate::rank::network::endpoints::{
    all_same, chomped, joined_lines, lines, rows_of, table_lines,
};
use crate::rank::network::NetworkFailure;
use vstd::prelude::*;

verus! {

/// A line that a table can hold: not empty, without a line feed, and without a
/// carriage return at its end.
pub open spec fn is_line(line: Seq<char>) -> bool {
    &&& line.len() > 0
    &&& line.last() != '\r'
    &&& forall|i: int| 0 <= i < line.len() ==> #[trigger] line[i] != '\n'
}

proof fn lemma_split_line(line: Seq<char>)
    requires
        forall|i: int| 0 <= i < line.len() ==> #[trigger] line[i] != '\n',
    ensures
        split(line, '\n') == seq![line],
    decreases line.len(),
{
    if line.len() > 0 {
        let head = line.drop_last();
        assert forall|i: int| 0 <= i < head.len() implies #[trigger] head[i] != '\n' by {
            assert(line[i] != '\n');
        }
        lemma_split_line(head);
        assert(line.last() == line[line.len() - 1]);
        assert(head.push(line.last()) =~= line);
        assert(split(line, '\n') =~= seq![line]);
    } else {
        assert(line =~= Seq::<char>::empty());
    }
}

proof fn lemma_split_joined(before: Seq<char>, line: Seq<char>)
    requires
        forall|i: int| 0 <= i < line.len() ==> #[trigger] line[i] != '\n',
    ensures
        split(before + seq!['\n'] + line, '\n') == split(before, '\n').push(line),
    decreases line.len(),
{
    let whole = before + seq!['\n'] + line;
    if line.len() == 0 {
        assert(whole.drop_last() =~= before);
        assert(whole.last() == '\n');
        assert(line =~= Seq::<char>::empty());
    } else {
        let head = line.drop_last();
        assert forall|i: int| 0 <= i < head.len() implies #[trigger] head[i] != '\n' by {
            assert(line[i] != '\n');
        }
        lemma_split_joined(before, head);
        assert(whole.drop_last() =~= before + seq!['\n'] + head);
        assert(whole.last() == line[line.len() - 1]);
        assert(head.push(line.last()) =~= line);
        let fields = split(before, '\n');
        assert(fields.push(head).drop_last() =~= fields);
    }
}

proof fn lemma_split_lines(list: Seq<Seq<char>>)
    requires
        list.len() > 0,
        forall|i: int| 0 <= i < list.len() ==> is_line(#[trigger] list[i]),
    ensures
        split(joined_lines(list), '\n') == list,
    decreases list.len(),
{
    reveal_strlit("\n");
    assert("\n"@ =~= seq!['\n']);
    assert(is_line(list[list.len() - 1]));
    if list.len() == 1 {
        lemma_split_line(list[0]);
        assert(seq![list[0]] =~= list);
    } else {
        let head = list.drop_last();
        assert forall|i: int| 0 <= i < head.len() implies is_line(#[trigger] head[i]) by {
            assert(is_line(list[i]));
        }
        lemma_split_lines(head);
        lemma_split_joined(joined_lines(head), list.last());
        assert(head.push(list.last()) =~= list);
    }
}

/// What is written as lines is read back as the same lines.
pub proof fn law_lines_round_trip(list: Seq<Seq<char>>)
    requires
        list.len() > 0,
        forall|i: int| 0 <= i < list.len() ==> is_line(#[trigger] list[i]),
    ensures
        lines(joined_lines(list)) == list,
{
    lemma_split_lines(list);
    assert(is_line(list[list.len() - 1]));
    assert forall|i: int| 0 <= i < list.len() implies chomped(#[trigger] list[i]) == list[i] by {
        assert(is_line(list[i]));
    }
    assert(lines(joined_lines(list)) =~= list);
}

proof fn lemma_shared_lines(rows: Seq<Seq<Seq<char>>>)
    requires
        forall|p: int| 0 <= p < rows.len() ==> (#[trigger] rows[p]).len() > 0,
    ensures
        table_lines(rows, true).len() == rows.len(),
        forall|p: int| 0 <= p < rows.len() ==> #[trigger] table_lines(rows, true)[p] == rows[p][0],
    decreases rows.len(),
{
    if rows.len() > 0 {
        let head = rows.drop_last();
        assert forall|p: int| 0 <= p < head.len() implies (#[trigger] head[p]).len() > 0 by {
            assert(rows[p].len() > 0);
        }
        lemma_shared_lines(head);
        assert(rows[rows.len() - 1].len() > 0);
        assert forall|p: int| 0 <= p < rows.len() implies #[trigger] table_lines(rows, true)[p]
            == rows[p][0] by {
            if p < head.len() {
                assert(table_lines(head, true)[p] == head[p][0]);
            }
        }
    }
}

proof fn lemma_rail_lines(rows: Seq<Seq<Seq<char>>>, rails: int)
    requires
        0 < rails,
        forall|p: int| 0 <= p < rows.len() ==> (#[trigger] rows[p]).len() == rails,
    ensures
        table_lines(rows, false).len() == rows.len() * rails,
        forall|p: int, r: int|
            0 <= p < rows.len() && 0 <= r < rails ==> table_lines(rows, false)[p * rails + r]
                == #[trigger] rows[p][r],
    decreases rows.len(),
{
    if rows.len() > 0 {
        let head = rows.drop_last();
        let last = rows.len() - 1;
        assert forall|p: int| 0 <= p < head.len() implies (#[trigger] head[p]).len() == rails by {
            assert(rows[p].len() == rails);
        }
        lemma_rail_lines(head, rails);
        assert(rows[last].len() == rails);
        assert(rows.len() * rails == last * rails + rails) by (nonlinear_arith)
            requires
                last == rows.len() - 1,
        ;
        assert forall|p: int, r: int| 0 <= p < rows.len() && 0 <= r < rails implies table_lines(
            rows,
            false,
        )[p * rails + r] == #[trigger] rows[p][r] by {
            if p < last {
                assert(p * rails + rails <= last * rails) by (nonlinear_arith)
                    requires
                        p + 1 <= last,
                        0 < rails,
                ;
                assert(0 <= p * rails) by (nonlinear_arith)
                    requires
                        0 <= p,
                        0 < rails,
                ;
                assert(table_lines(head, false)[p * rails + r] == head[p][r]);
            } else {
                assert(p * rails + r == last * rails + r);
            }
        }
    }
}

/// Every rank lays the table out as the coordinator had it, whether it holds
/// one line per rank or one per rank and rail.
pub proof fn law_table_round_trip(rows: Seq<Seq<Seq<char>>>, rails: int, shared: bool)
    requires
        rows.len() > 0,
        0 < rails,
        forall|p: int| 0 <= p < rows.len() ==> (#[trigger] rows[p]).len() == rails,
        shared ==> forall|p: int| 0 <= p < rows.len() ==> all_same(#[trigger] rows[p]),
    ensures
        rows_of(table_lines(rows, shared), rows.len() as int, rails) == Ok::<_, NetworkFailure>(
            rows,
        ),
{
    let size = rows.len() as int;
    let list = table_lines(rows, shared);
    let read = rows_of(list, size, rails);
    if shared {
        lemma_shared_lines(rows);
        assert forall|p: int| 0 <= p < size implies read->Ok_0[p] == #[trigger] rows[p] by {
            assert(all_same(rows[p]));
            assert(rows[p].len() == rails);
            assert(read->Ok_0[p] =~= rows[p]);
        }
    } else {
        lemma_rail_lines(rows, rails);
        if rails > 1 {
            assert(size * rails != size) by (nonlinear_arith)
                requires
                    size > 0,
                    rails > 1,
            ;
        }
        assert forall|p: int| 0 <= p < size implies read->Ok_0[p] == #[trigger] rows[p] by {
            assert(rows[p].len() == rails);
            assert forall|r: int| 0 <= r < rails implies read->Ok_0[p][r] == rows[p][r] by {
                if rails == 1 {
                    assert(p * rails == p) by (nonlinear_arith)
                        requires
                            rails == 1,
                    ;
                }
            }
            assert(read->Ok_0[p] =~= rows[p]);
        }
    }
    assert(read->Ok_0 =~= rows);
}

} // verus!
