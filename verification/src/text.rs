//! The text of a matrix.

use crate::common::MatOps;
use crate::common::lemma_flat_index;
use crate::fill::read;
use crate::model::Matrix;
use crate::rational::Rational;
use crate::rational::rational_text;
use vstd::prelude::*;
use vstd::string::StringExecFns;

verus! {

/// The first `n` entries of row `i`, each followed by a space.
pub open spec fn row_text(m: Matrix, i: int, n: nat) -> Seq<char>
    decreases n,
{
    if n == 0 {
        Seq::empty()
    } else {
        row_text(m, i, (n - 1) as nat) + rational_text(m.at(i, n - 1)) + seq![' ']
    }
}

/// The first `k` rows, each followed by a line break.
pub open spec fn page_text(m: Matrix, k: nat) -> Seq<char>
    decreases k,
{
    if k == 0 {
        Seq::empty()
    } else {
        page_text(m, (k - 1) as nat) + row_text(m, k - 1, m.cols) + seq!['\n']
    }
}

/// The first `n` texts of row `i` of a row-major list with `cols` texts to
/// the row, each followed by a space.
pub open spec fn row_join(texts: Seq<String>, cols: nat, i: int, n: nat) -> Seq<char>
    decreases n,
{
    if n == 0 {
        Seq::empty()
    } else {
        row_join(texts, cols, i, (n - 1) as nat) + texts[i * cols + n - 1]@ + seq![' ']
    }
}

/// The first `k` rows of a row-major list with `cols` texts to the row,
/// each followed by a line break.
pub open spec fn page_join(texts: Seq<String>, cols: nat, k: nat) -> Seq<char>
    decreases k,
{
    if k == 0 {
        Seq::empty()
    } else {
        page_join(texts, cols, (k - 1) as nat) + row_join(texts, cols, k - 1, cols) + seq!['\n']
    }
}

/// Sets the texts of the entries, listed row by row, as a page: the texts
/// of a row separated by spaces, one row to the line.
pub fn layout(texts: &Vec<String>, rows: usize, cols: usize) -> (page: String)
    requires
        rows * cols == texts@.len(),
    ensures
        page@ == page_join(texts@, cols as nat, rows as nat),
{
    let mut page = String::new();
    let len = texts.len();
    proof {
        reveal_strlit(" ");
        reveal_strlit("\n");
        assert(page@ =~= page_join(texts@, cols as nat, 0));
    }
    let mut i: usize = 0;
    while i < rows
        invariant
            i <= rows,
            len == texts@.len(),
            rows * cols == texts@.len(),
            " "@ == seq![' '],
            "\n"@ == seq!['\n'],
            page@ == page_join(texts@, cols as nat, i as nat),
        decreases rows - i,
    {
        let ghost before = page@;
        let mut j: usize = 0;
        proof {
            assert(page@ =~= before + row_join(texts@, cols as nat, i as int, 0));
        }
        while j < cols
            invariant
                i < rows,
                j <= cols,
                len == texts@.len(),
                rows * cols == texts@.len(),
                " "@ == seq![' '],
                page@ == before + row_join(texts@, cols as nat, i as int, j as nat),
            decreases cols - j,
        {
            proof {
                lemma_flat_index(i as int, j as int, rows as int, cols as int);
            }
            page.append(texts[i * cols + j].as_str());
            page.append(" ");
            proof {
                assert(page@ =~= before + row_join(
                    texts@,
                    cols as nat,
                    i as int,
                    (j + 1) as nat,
                ));
            }
            j = j + 1;
        }
        page.append("\n");
        proof {
            assert(page@ =~= page_join(texts@, cols as nat, (i + 1) as nat));
        }
        i = i + 1;
    }
    page
}

/// A row of texts that are the texts of the entries reads as the row of
/// the matrix.
proof fn lemma_row_join(texts: Seq<String>, m: Matrix, i: int, n: nat)
    requires
        0 <= i < m.rows,
        n <= m.cols,
        forall|y: int|
            0 <= y < m.cols ==> (#[trigger] texts[i * m.cols + y])@ == rational_text(m.at(i, y)),
    ensures
        row_join(texts, m.cols, i, n) == row_text(m, i, n),
    decreases n,
{
    if n > 0 {
        lemma_row_join(texts, m, i, (n - 1) as nat);
        assert(texts[i * m.cols + (n - 1)]@ == rational_text(m.at(i, n - 1)));
    }
}

/// A page of texts that are the texts of the entries reads as the page of
/// the matrix.
proof fn lemma_page_join(texts: Seq<String>, m: Matrix, k: nat)
    requires
        k <= m.rows,
        forall|x: int, y: int|
            0 <= x < m.rows && 0 <= y < m.cols ==> (#[trigger] texts[x * m.cols + y])@
                == rational_text(m.at(x, y)),
    ensures
        page_join(texts, m.cols, k) == page_text(m, k),
    decreases k,
{
    if k > 0 {
        lemma_page_join(texts, m, (k - 1) as nat);
        lemma_row_join(texts, m, k - 1, m.cols);
    }
}

/// The text of a matrix: row by row, the entries of a row separated by
/// spaces.
pub fn render<M: MatOps<Rational>>(m: &M) -> (text: String)
    requires
        m.model().complete(),
    ensures
        text@ == page_text(m.model(), m.model().rows),
{
    let rows = m.row();
    let cols = m.col();
    let mut texts: Vec<String> = Vec::new();
    let mut i: usize = 0;
    while i < rows
        invariant
            i <= rows,
            rows == m.model().rows,
            cols == m.model().cols,
            m.model().complete(),
            texts@.len() == i * cols,
            forall|x: int, y: int|
                0 <= x < i && 0 <= y < cols ==> (#[trigger] texts@[x * cols + y])@
                    == rational_text(m.model().at(x, y)),
        decreases rows - i,
    {
        let mut j: usize = 0;
        while j < cols
            invariant
                i < rows,
                j <= cols,
                rows == m.model().rows,
                cols == m.model().cols,
                m.model().complete(),
                texts@.len() == i * cols + j,
                forall|x: int, y: int|
                    0 <= x < i && 0 <= y < cols ==> (#[trigger] texts@[x * cols + y])@
                        == rational_text(m.model().at(x, y)),
                forall|y: int|
                    0 <= y < j ==> (#[trigger] texts@[i * cols + y])@ == rational_text(
                        m.model().at(i as int, y),
                    ),
            decreases cols - j,
        {
            assert(m.model().has(i as int, j as int) <==> m.model().in_bounds(i as int, j as int));
            let cell = read(m, i, j).to_text();
            let ghost before = texts@;
            texts.push(cell);
            proof {
                assert forall|x: int, y: int| 0 <= x < i && 0 <= y < cols implies (#[trigger]
                    texts@[x * cols + y])@ == rational_text(m.model().at(x, y)) by {
                    lemma_flat_index(x, y, i as int, cols as int);
                    assert(texts@[x * cols + y] == before[x * cols + y]);
                }
                assert forall|y: int| 0 <= y < j + 1 implies (#[trigger] texts@[i * cols + y])@
                    == rational_text(m.model().at(i as int, y)) by {
                    if y < j {
                        assert(texts@[i * cols + y] == before[i * cols + y]);
                    }
                }
            }
            j = j + 1;
        }
        proof {
            assert(i * cols + cols == (i + 1) * cols) by (nonlinear_arith);
            assert forall|x: int, y: int| 0 <= x < i + 1 && 0 <= y < cols implies (#[trigger]
                texts@[x * cols + y])@ == rational_text(m.model().at(x, y)) by {
                if x == i {
                    assert((texts@[i * cols + y])@ == rational_text(m.model().at(i as int, y)));
                }
            }
        }
        i = i + 1;
    }
    proof {
        lemma_page_join(texts@, m.model(), rows as nat);
    }
    layout(&texts, rows, cols)
}

} // verus!
