//! The line/column lookup table over a borrowed string slice.
use vstd::prelude::*;
use vstd::string::*;
use vstd::utf8::*;
use crate::clusters::{count_clusters, grapheme_count};
use crate::lines::{
    LINE_FEED, column_of, line_of, line_start_of, line_starts, lemma_after_line_feed_is_boundary,
    lemma_line_of_offset, lemma_line_of_unique, lemma_line_starts_shape,
};

verus! {

/// Pre-cached line/column lookup table for a string slice.
pub struct LineColLookup<'source> {
    src: &'source str,
    line_heads: Vec<usize>,
}

impl<'source> LineColLookup<'source> {
    /// The UTF-8 bytes of the text that the table was built over.
    pub closed spec fn text(&self) -> Seq<u8> {
        self.src.spec_bytes()
    }

    /// The table holds exactly the line starts of the text, and every column of
    /// the text fits in a `usize`.
    pub closed spec fn wf(&self) -> bool {
        &&& self.line_heads@.map_values(|h: usize| h as int) == line_starts(self.text())
        &&& self.text().len() < usize::MAX
    }

    /// Creates a new line/col lookup table. The `src` parameter provides the input
    /// string used to calculate lines and columns.
    ///
    /// This scans `src` once and caches the starting positions of all lines, an
    /// O(n) operation.
    pub fn new(src: &'source str) -> (r: Self)
        requires
            src.spec_bytes().len() < usize::MAX,
        ensures
            r.wf(),
            r.text() == src.spec_bytes(),
    {
        LineColLookup { src, line_heads: Self::heads(src) }
    }

    /// The byte offsets at which the lines of `src` begin.
    fn heads(src: &str) -> (r: Vec<usize>)
        ensures
            r@.map_values(|h: usize| h as int) == line_starts(src.spec_bytes()),
    {
        let bytes = src.as_bytes();
        let n = bytes.len();
        let mut heads: Vec<usize> = Vec::new();
        heads.push(0);
        assert(heads@.map_values(|h: usize| h as int) =~= line_starts(
            bytes@.subrange(0, 0),
        ));
        let mut i: usize = 0;
        while i < n
            invariant
                n == bytes@.len(),
                bytes@ == src.spec_bytes(),
                i <= n,
                heads@.map_values(|h: usize| h as int) == line_starts(
                    bytes@.subrange(0, i as int),
                ),
            decreases n - i,
        {
            let ghost before = heads@;
            if bytes[i] == LINE_FEED {
                heads.push(i + 1);
                assert(heads@.map_values(|h: usize| h as int) =~= before.map_values(
                    |h: usize| h as int,
                ).push(i + 1));
            }
            assert(bytes@.subrange(0, i + 1).drop_last() =~= bytes@.subrange(0, i as int));
            i += 1;
        }
        assert(bytes@.subrange(0, n as int) =~= bytes@);
        heads
    }

    /// The 0-based index of the line on which `index` lies, found by binary search
    /// over the line starts.
    fn line_index(&self, index: usize) -> (r: usize)
        requires
            self.wf(),
            index <= self.text().len(),
        ensures
            r < self.line_heads@.len(),
            r + 1 == line_of(self.text(), index as int),
            self.line_heads@[r as int] == line_start_of(self.text(), index as int),
    {
        let ghost starts = line_starts(self.text());
        let heads = &self.line_heads;
        proof {
            lemma_line_starts_shape(self.text());
            assert(forall|k: int|
                0 <= k < heads@.len() ==> heads@[k] as int == #[trigger] starts[k]);
        }
        let mut lo: usize = 0;
        let mut hi: usize = heads.len();
        while hi - lo > 1
            invariant
                lo < hi <= heads@.len(),
                heads@.len() == starts.len(),
                forall|k: int| 0 <= k < heads@.len() ==> heads@[k] as int == #[trigger] starts[k],
                heads@[lo as int] <= index,
                hi == heads@.len() || index < heads@[hi as int],
            decreases hi - lo,
        {
            let mid = lo + (hi - lo) / 2;
            if index < heads[mid] {
                hi = mid;
            } else {
                lo = mid;
            }
        }
        proof {
            assert(starts[lo as int] <= index);
            if lo + 1 < starts.len() {
                assert(index < starts[lo + 1]);
            }
            lemma_line_of_unique(self.text(), index as int, lo as int);
        }
        lo
    }

    /// Looks up the 1-based line and column numbers of the specified byte index.
    ///
    /// Returns a tuple with the line number first, then column number. The column
    /// counts bytes from the start of the line.
    ///
    /// `index` may not be greater than the length of the input `&str`.
    ///
    /// A binary search locates the line on which `index` resides, so this runs in
    /// O(log n) time.
    pub fn get(&self, index: usize) -> (r: (usize, usize))
        requires
            self.wf(),
            index <= self.text().len(),
        ensures
            r.0 as int == line_of(self.text(), index as int),
            r.1 as int == column_of(self.text(), index as int),
    {
        let k = self.line_index(index);
        proof {
            lemma_line_of_offset(self.text(), index as int);
            lemma_line_starts_shape(self.text());
        }
        let line_start = self.line_heads[k];
        (k + 1, index - line_start + 1)
    }

    /// Looks up the 1-based line and column numbers of the specified byte index.
    /// The column is one more than the number of grapheme clusters from the start of
    /// the line up to, and not including, `index`.
    ///
    /// Returns a tuple with the line number first, then column number.
    ///
    /// `index` may not be greater than the length of the input `&str`, and must lie
    /// on a character boundary.
    pub fn get_by_cluster(&self, index: usize) -> (r: (usize, usize))
        requires
            self.wf(),
            index <= self.text().len(),
            is_char_boundary(self.text(), index as int),
        ensures
            r.0 as int == line_of(self.text(), index as int),
            r.1 as int == grapheme_count(
                decode_utf8(self.text().subrange(line_start_of(self.text(), index as int), index as int)),
            ) + 1,
    {
        let k = self.line_index(index);
        let ghost text = self.text();
        proof {
            lemma_line_of_offset(text, index as int);
            lemma_line_starts_shape(text);
        }
        let line_start = self.line_heads[k];
        let (before, _) = self.src.split_at(index);
        proof {
            let b = before.spec_bytes();
            assert(valid_utf8(b)) by {
                encode_utf8_valid_utf8(before@);
            }
            if line_start > 0 {
                assert(text[line_start - 1] == LINE_FEED);
                assert(b[line_start - 1] == LINE_FEED);
                lemma_after_line_feed_is_boundary(b, line_start - 1);
            }
        }
        let (_, segment) = before.split_at(line_start);
        let clusters = count_clusters(segment);
        proof {
            assert(segment.spec_bytes() =~= text.subrange(line_start as int, index as int));
            encode_utf8_decode_utf8(segment@);
        }
        (k + 1, clusters + 1)
    }
}

} // verus!
