use vstd::prelude::*;

use crate::knapsack::{error_line, shape_defect, Knapsack, MalformedInstance};

verus! {

/// Where a left-to-right scan of the input text stands: the finished lines,
/// the numbers of the current line, the digits of the number being read (as
/// its value), the 0-based number of the current line, and the 1-based line of
/// the first defect, if any.
pub struct ScanState {
    pub rows: Seq<Seq<u32>>,
    pub row: Seq<u32>,
    pub token: Option<int>,
    pub line: int,
    pub bad: Option<int>,
}

/// An ASCII decimal digit.
pub open spec fn is_digit(b: u8) -> bool {
    48 <= b <= 57
}

/// A byte that separates numbers on a line: space, tab, vertical tab, form
/// feed or carriage return.
pub open spec fn is_blank(b: u8) -> bool {
    b == 32 || (9 <= b <= 13 && b != 10)
}

/// The current line with the number being read, if any, appended.
pub open spec fn closed_row(s: ScanState) -> Seq<u32> {
    match s.token {
        Some(v) => s.row.push(v as u32),
        None => s.row,
    }
}

/// The scan after one more byte. A digit extends the number being read (a
/// number above `u32::MAX` is a defect); a blank ends it; a newline ends it
/// and the line; any other byte is a defect.
pub open spec fn scan_step(s: ScanState, b: u8) -> ScanState {
    if s.bad is Some {
        s
    } else if is_digit(b) {
        let v = match s.token {
            Some(t) => t * 10 + (b - 48),
            None => b - 48,
        };
        if v > u32::MAX {
            ScanState { bad: Some(s.line + 1), ..s }
        } else {
            ScanState { token: Some(v), ..s }
        }
    } else if is_blank(b) {
        ScanState { row: closed_row(s), token: None, ..s }
    } else if b == 10 {
        ScanState {
            rows: s.rows.push(closed_row(s)),
            row: seq![],
            token: None,
            line: s.line + 1,
            bad: None,
        }
    } else {
        ScanState { bad: Some(s.line + 1), ..s }
    }
}

/// The scan of a whole prefix of the text.
pub open spec fn scan(text: Seq<u8>) -> ScanState
    decreases text.len(),
{
    if text.len() == 0 {
        ScanState { rows: seq![], row: seq![], token: None, line: 0, bad: None }
    } else {
        scan_step(scan(text.drop_last()), text.last())
    }
}

/// The lines of numbers of a text: the line after the last newline counts
/// only where the text does not end with a newline.
pub open spec fn text_rows(text: Seq<u8>) -> Seq<Seq<u32>> {
    let s = scan(text);
    if text.len() == 0 || text.last() == 10 {
        s.rows
    } else {
        s.rows.push(closed_row(s))
    }
}

/// The scan keeps its number within `u32` and its line count within the text.
pub proof fn lemma_scan_bounds(text: Seq<u8>)
    ensures
        scan(text).line <= text.len(),
        scan(text).line >= 0,
        scan(text).line == scan(text).rows.len(),
        scan(text).token matches Some(v) ==> 0 <= v <= u32::MAX,
        scan(text).bad matches Some(l) ==> 1 <= l <= text.len() && l == scan(text).line + 1,
    decreases text.len(),
{
    if text.len() > 0 {
        lemma_scan_bounds(text.drop_last());
    }
}

/// Once the scan has met a defect, the rest of the text changes nothing.
pub proof fn lemma_scan_bad_stays(text: Seq<u8>, k: int)
    requires
        0 <= k <= text.len(),
        scan(text.subrange(0, k)).bad is Some,
    ensures
        scan(text) == scan(text.subrange(0, k)),
    decreases text.len() - k,
{
    if k < text.len() {
        assert(text.subrange(0, k + 1).drop_last() == text.subrange(0, k));
        lemma_scan_bad_stays(text, k + 1);
    } else {
        assert(text.subrange(0, k) == text);
    }
}

/// Reads the lines of whitespace-separated non-negative integers of an input
/// text. The first byte that belongs to no such number, or the first number
/// above `u32::MAX`, ends the reading: its 1-based line is returned beside the
/// lines completed before it.
pub fn read_rows(text: &[u8]) -> (r: (Vec<Vec<u32>>, Option<u64>))
    ensures
        match r.1 {
            None => scan(text@).bad is None && r.0@.map(|i: int, row: Vec<u32>| row@)
                == text_rows(text@),
            Some(l) => scan(text@).bad == Some(l as int) && r.0@.map(
                |i: int, row: Vec<u32>| row@,
            ) == scan(text@).rows,
        },
{
    let mut rows: Vec<Vec<u32>> = Vec::new();
    let mut row: Vec<u32> = Vec::new();
    let mut token: Option<u64> = None;
    let mut line: u64 = 0;
    let mut i: usize = 0;
    while i < text.len()
        invariant
            i <= text@.len(),
            ({
                let s = scan(text@.subrange(0, i as int));
                &&& s.bad is None
                &&& rows@.map(|i: int, row: Vec<u32>| row@) == s.rows
                &&& row@ == s.row
                &&& s.line == line
                &&& match token {
                    Some(v) => s.token == Some(v as int),
                    None => s.token is None,
                }
            }),
        decreases text@.len() - i,
    {
        let ghost pre = text@.subrange(0, i as int);
        proof {
            assert(text@.subrange(0, i + 1).drop_last() == pre);
            assert(text@.subrange(0, i + 1).last() == text@[i as int]);
            lemma_scan_bounds(pre);
        }
        let b = text[i];
        if 48 <= b && b <= 57 {
            let v: u64 = match token {
                Some(t) => t * 10 + (b - 48) as u64,
                None => (b - 48) as u64,
            };
            if v > 0xFFFF_FFFFu64 {
                proof {
                    lemma_scan_bad_stays(text@, i + 1);
                }
                return (rows, Some(line + 1));
            }
            token = Some(v);
        } else if b == 32 || (9 <= b && b <= 13 && b != 10) {
            if let Some(v) = token {
                row.push(v as u32);
            }
            token = None;
        } else if b == 10 {
            if let Some(v) = token {
                row.push(v as u32);
            }
            token = None;
            let ghost before = rows@;
            let done = row;
            row = Vec::new();
            rows.push(done);
            assert(rows@.map(|i: int, row: Vec<u32>| row@) =~= before.map(
                |i: int, row: Vec<u32>| row@,
            ).push(done@));
            line = line + 1;
        } else {
            proof {
                lemma_scan_bad_stays(text@, i + 1);
            }
            return (rows, Some(line + 1));
        }
        i = i + 1;
    }
    assert(text@.subrange(0, i as int) == text@);
    if text.len() > 0 && text[text.len() - 1] != 10 {
        if let Some(v) = token {
            row.push(v as u32);
        }
        let ghost before = rows@;
        rows.push(row);
        assert(rows@.map(|i: int, row: Vec<u32>| row@) =~= before.map(
            |i: int, row: Vec<u32>| row@,
        ).push(closed_row(scan(text@))));
    }
    (rows, None)
}

/// The 1-based line of the first defect of an input text, or 0 where it
/// describes an instance: where a byte belongs to no number, the earlier of its
/// line and the first line before it with a wrong count of values; otherwise
/// the first defect of its lines of numbers.
pub open spec fn text_error_line(text: Seq<u8>) -> int {
    match scan(text).bad {
        Some(l) => if shape_defect(scan(text).rows) != 0 {
            shape_defect(scan(text).rows)
        } else {
            l
        },
        None => error_line(text_rows(text)),
    }
}

/// Builds an instance from the text of its input.
pub fn parse_instance(text: &[u8]) -> (r: Result<Knapsack, MalformedInstance>)
    ensures
        match r {
            Ok(k) => text_error_line(text@) == 0 && k.built_from(text_rows(text@)),
            Err(e) => text_error_line(text@) != 0 && e.line == text_error_line(text@),
        },
        scan(text@).bad matches Some(l) ==> r matches Err(e) && e.line <= l,
{
    let (rows, bad) = read_rows(text);
    proof {
        lemma_scan_bounds(text@);
    }
    match bad {
        None => Knapsack::from(&rows),
        Some(l) => {
            let defect = Knapsack::shape_defect_of(&rows);
            proof {
                crate::knapsack::lemma_shape_defect_bound(scan(text@).rows);
            }
            if defect != 0 {
                Err(MalformedInstance { line: defect })
            } else {
                Err(MalformedInstance { line: l })
            }
        },
    }
}

} // verus!
