use vstd::prelude::*;

use crate::digits::{all_digits, digits_val, is_digit, lemma_digits_val_prefix_le};
use crate::record::{RecordModel, TypeSizeRecord};

verus! {

/// Index of the first occurrence of `c` in `s` at or after `from`,
/// or `None` when no such occurrence exists.
pub open spec fn spec_find_from(s: Seq<char>, from: int, c: char) -> Option<int>
    decreases s.len() - from,
{
    if from < 0 || from >= s.len() {
        None
    } else if s[from] == c {
        Some(from)
    } else {
        spec_find_from(s, from + 1, c)
    }
}

/// Finds the first occurrence of `c` in `s` at or after character index `from`.
pub fn find_char_from(s: &str, from: usize, c: char) -> (r: Option<usize>)
    ensures
        match r {
            Some(i) => spec_find_from(s@, from as int, c) == Some(i as int) && from <= i < s@.len(),
            None => spec_find_from(s@, from as int, c) is None,
        },
{
    let len = s.unicode_len();
    let mut i = from;
    while i < len
        invariant
            from <= i,
            len == s@.len(),
            spec_find_from(s@, from as int, c) == spec_find_from(s@, i as int, c),
        decreases len - i,
    {
        let ch = s.get_char(i);
        if ch == c {
            return Some(i);
        }
        i = i + 1;
    }
    None
}

/// True when `p` is a prefix of `s`.
pub fn has_prefix(s: &str, p: &str) -> (b: bool)
    ensures
        b == p@.is_prefix_of(s@),
{
    let slen = s.unicode_len();
    let plen = p.unicode_len();
    if plen > slen {
        return false;
    }
    let mut i: usize = 0;
    while i < plen
        invariant
            plen <= slen,
            slen == s@.len(),
            plen == p@.len(),
            i <= plen,
            forall|j: int| 0 <= j < i ==> s@[j] == p@[j],
        decreases plen - i,
    {
        if s.get_char(i) != p.get_char(i) {
            proof {
                assert(!p@.is_prefix_of(s@)) by {
                    if p@.is_prefix_of(s@) {
                        assert(p@[i as int] == s@.subrange(0, plen as int)[i as int]);
                    }
                }
            }
            return false;
        }
        i = i + 1;
    }
    proof {
        assert(p@ =~= s@.subrange(0, plen as int));
    }
    true
}

/// The numeral part of a size token: the token without its optional
/// leading `+` sign.
pub open spec fn numeral_of(s: Seq<char>) -> Seq<char> {
    if s.len() > 0 && s[0] == '+' {
        s.drop_first()
    } else {
        s
    }
}

/// What `str::parse::<usize>` accepts of a non-negative numeral: an
/// optional leading `+`, then one or more decimal digits, whose value
/// fits in `usize`.
pub open spec fn spec_parse_usize(s: Seq<char>) -> Option<usize> {
    let ds = numeral_of(s);
    if ds.len() > 0 && all_digits(ds) && digits_val(ds) <= usize::MAX {
        Some(digits_val(ds) as usize)
    } else {
        None
    }
}

/// Parses `s` as a non-negative decimal integer, as `str::parse::<usize>`
/// does: an optional leading `+`, then one or more digits; anything else,
/// or a value that does not fit, is rejected.
pub fn parse_usize(s: &str) -> (r: Option<usize>)
    ensures
        r == spec_parse_usize(s@),
{
    let len = s.unicode_len();
    let start: usize = if len > 0 && s.get_char(0) == '+' {
        1
    } else {
        0
    };
    let ghost ds = numeral_of(s@);
    proof {
        assert(ds =~= s@.subrange(start as int, len as int));
    }
    if start >= len {
        return None;
    }
    let mut acc: usize = 0;
    let mut i = start;
    while i < len
        invariant
            start <= i <= len,
            len == s@.len(),
            start < len,
            ds == numeral_of(s@),
            ds == s@.subrange(start as int, len as int),
            acc == digits_val(ds.take(i - start)),
            all_digits(ds.take(i - start)),
        decreases len - i,
    {
        let c = s.get_char(i);
        let cv = c as u32;
        if cv < '0' as u32 || cv > '9' as u32 {
            proof {
                assert(ds[i - start] == s@[i as int]);
                assert(!is_digit(ds[i - start]));
            }
            return None;
        }
        let d = (cv - '0' as u32) as usize;
        proof {
            assert(ds[i - start] == s@[i as int]);
            assert(ds.take(i - start + 1).drop_last() =~= ds.take(i - start));
            assert(digits_val(ds.take(i - start + 1)) == acc * 10 + d);
        }
        if acc > (usize::MAX - d) / 10 {
            proof {
                let bound = (usize::MAX - d) as int;
                assert(acc * 10 + d > usize::MAX) by (nonlinear_arith)
                    requires
                        acc > bound / 10,
                        0 <= d <= 9,
                        bound == usize::MAX - d,
                ;
                lemma_digits_val_prefix_le(ds, i - start + 1);
                assert(ds.take(len - start) =~= ds);
                lemma_digits_val_prefix_le(ds, len - start);
                assert(digits_val(ds) > usize::MAX);
            }
            return None;
        }
        proof {
            assert(acc * 10 + d <= usize::MAX) by (nonlinear_arith)
                requires
                    0 <= d <= 9,
                    0 <= acc <= (usize::MAX - d) / 10,
            ;
        }
        acc = acc * 10 + d;
        i = i + 1;
    }
    proof {
        assert(ds.take(len - start) =~= ds);
    }
    Some(acc)
}

/// A line that a newline byte ended sheds one carriage return before
/// it, so that output with CRLF endings reads as the same lines.
pub open spec fn chomp_cr(l: Seq<u8>) -> Seq<u8> {
    if l.len() > 0 && l.last() == 13 {
        l.drop_last()
    } else {
        l
    }
}

/// The lines of a byte stream, walked from position `i` with the bytes
/// of the current, still open line in `cur`: each newline byte (10)
/// ends a line; a final line without a newline stands as it is; after a
/// final newline no empty line follows.
pub open spec fn spec_lines_from(s: Seq<u8>, i: int, cur: Seq<u8>) -> Seq<Seq<u8>>
    decreases s.len() - i,
{
    if i < 0 || i >= s.len() {
        if cur.len() == 0 {
            Seq::empty()
        } else {
            seq![cur]
        }
    } else if s[i] == 10 {
        seq![chomp_cr(cur)] + spec_lines_from(s, i + 1, Seq::empty())
    } else {
        spec_lines_from(s, i + 1, cur.push(s[i]))
    }
}

/// The lines of a captured byte stream.
pub open spec fn spec_split_lines(s: Seq<u8>) -> Seq<Seq<u8>> {
    spec_lines_from(s, 0, Seq::empty())
}

/// Splits captured build output into lines on newline bytes, shedding a
/// carriage return before each newline, as a buffered line reader does.
pub fn split_lines(bytes: &Vec<u8>) -> (r: Vec<Vec<u8>>)
    ensures
        r@.map_values(|l: Vec<u8>| l@) == spec_split_lines(bytes@),
{
    let mut out: Vec<Vec<u8>> = Vec::new();
    let mut cur: Vec<u8> = Vec::new();
    let mut i: usize = 0;
    proof {
        assert(out@.map_values(|l: Vec<u8>| l@) + spec_lines_from(bytes@, 0, cur@)
            =~= spec_split_lines(bytes@));
    }
    while i < bytes.len()
        invariant
            i <= bytes@.len(),
            spec_split_lines(bytes@) == out@.map_values(|l: Vec<u8>| l@) + spec_lines_from(
                bytes@,
                i as int,
                cur@,
            ),
        decreases bytes@.len() - i,
    {
        let ghost prev_out = out@;
        let ghost prev_cur = cur@;
        let b = bytes[i];
        if b == 10 {
            let mut line = cur;
            cur = Vec::new();
            if line.len() > 0 {
                let last = line[line.len() - 1];
                if last == 13 {
                    let _ = line.pop();
                    proof {
                        assert(line@ =~= chomp_cr(prev_cur));
                    }
                }
            }
            proof {
                assert(line@ == chomp_cr(prev_cur));
            }
            out.push(line);
            proof {
                assert(out@.map_values(|l: Vec<u8>| l@) =~= prev_out.map_values(
                    |l: Vec<u8>| l@,
                ).push(chomp_cr(prev_cur)));
                assert(spec_lines_from(bytes@, i as int, prev_cur) == seq![chomp_cr(prev_cur)]
                    + spec_lines_from(bytes@, i + 1, cur@));
                assert(prev_out.map_values(|l: Vec<u8>| l@) + spec_lines_from(
                    bytes@,
                    i as int,
                    prev_cur,
                ) =~= out@.map_values(|l: Vec<u8>| l@) + spec_lines_from(bytes@, i + 1, cur@));
            }
        } else {
            cur.push(b);
            proof {
                assert(spec_lines_from(bytes@, i as int, prev_cur) == spec_lines_from(
                    bytes@,
                    i + 1,
                    cur@,
                ));
            }
        }
        i = i + 1;
    }
    if cur.len() > 0 {
        let ghost prev_out = out@;
        let ghost prev_cur = cur@;
        out.push(cur);
        proof {
            assert(spec_lines_from(bytes@, bytes@.len() as int, prev_cur) == seq![prev_cur]);
            assert(out@.map_values(|l: Vec<u8>| l@) =~= prev_out.map_values(|l: Vec<u8>| l@)
                + seq![prev_cur]);
        }
    } else {
        proof {
            assert(spec_lines_from(bytes@, bytes@.len() as int, cur@) =~= Seq::<Seq<u8>>::empty());
            assert(out@.map_values(|l: Vec<u8>| l@) + Seq::<Seq<u8>>::empty() =~= out@.map_values(
                |l: Vec<u8>| l@,
            ));
        }
    }
    out
}

/// The prefix shared by every line of the type-size diagnostic.
pub open spec fn diag_prefix() -> Seq<char> {
    "print-type-size "@
}

/// The prefix of the per-type summary lines, the only lines that yield
/// records.
pub open spec fn type_line_prefix() -> Seq<char> {
    "print-type-size type: "@
}

/// The second stage of line extraction: in the metadata — the text from
/// the name's closing backtick to the end of the line — the token
/// between the first space and the second (or the end) is read as a
/// decimal size.
pub open spec fn parse_metadata(name: Seq<char>, meta: Seq<char>) -> Option<RecordModel> {
    match spec_find_from(meta, 0, ' ') {
        None => None,
        Some(p) => {
            let tok_end = match spec_find_from(meta, p + 1, ' ') {
                Some(q) => q,
                None => meta.len() as int,
            };
            match spec_parse_usize(meta.subrange(p + 1, tok_end)) {
                None => None,
                Some(size) => Some(RecordModel { name, size: size as nat }),
            }
        },
    }
}

/// What the parser extracts from one line of build output: the name
/// between the first pair of backticks, and the second space-separated
/// token of the metadata that runs from the name's closing backtick to
/// the end of the line, read as a decimal size. A line that fails any
/// step yields nothing.
pub open spec fn spec_parse_line(line: Seq<char>) -> Option<RecordModel> {
    if !type_line_prefix().is_prefix_of(line) {
        None
    } else {
        match spec_find_from(line, 0, '`') {
            None => None,
            Some(i) => match spec_find_from(line, i + 1, '`') {
                None => None,
                Some(j) => parse_metadata(
                    line.subrange(i + 1, j),
                    line.subrange(j + 1, line.len() as int),
                ),
            },
        }
    }
}

/// Extracts a record from one line of build output, as `spec_parse_line`
/// says; a line of any other shape is skipped, never an error.
pub fn parse_line(line: &str) -> (r: Option<TypeSizeRecord>)
    ensures
        match r {
            Some(rec) => spec_parse_line(line@) == Some(rec@),
            None => spec_parse_line(line@) is None,
        },
{
    if !has_prefix(line, "print-type-size type: ") {
        return None;
    }
    let n = line.unicode_len();
    let i = match find_char_from(line, 0, '`') {
        Some(i) => i,
        None => {
            return None;
        },
    };
    let j = match find_char_from(line, i + 1, '`') {
        Some(j) => j,
        None => {
            return None;
        },
    };
    let name = line.substring_char(i + 1, j);
    let meta = line.substring_char(j + 1, n);
    let meta_len = meta.unicode_len();
    let p = match find_char_from(meta, 0, ' ') {
        Some(p) => p,
        None => {
            return None;
        },
    };
    let tok_end = match find_char_from(meta, p + 1, ' ') {
        Some(q) => q,
        None => meta_len,
    };
    let tok = meta.substring_char(p + 1, tok_end);
    match parse_usize(tok) {
        Some(size) => Some(TypeSizeRecord::new(String::from_str(name), size)),
        None => None,
    }
}

/// A line that does not carry the per-type prefix yields no record; in
/// particular a line outside the diagnostic format altogether, and a
/// diagnostic line of another shape (a field or variant breakdown),
/// yield none.
pub proof fn lemma_non_type_line_yields_nothing(line: Seq<char>)
    requires
        !diag_prefix().is_prefix_of(line) || !type_line_prefix().is_prefix_of(line),
    ensures
        spec_parse_line(line) is None,
{
    if type_line_prefix().is_prefix_of(line) {
        reveal_strlit("print-type-size ");
        reveal_strlit("print-type-size type: ");
        assert(diag_prefix() =~= line.subrange(0, diag_prefix().len() as int)) by {
            assert forall|k: int| 0 <= k < diag_prefix().len() implies line[k] == diag_prefix()[k]
            by {
                assert(line[k] == type_line_prefix()[k]);
            }
        }
    }
}

/// Searching for `c` can start past any region that lacks it.
proof fn lemma_find_from_skip(s: Seq<char>, from: int, to: int, c: char)
    requires
        0 <= from <= to <= s.len(),
        forall|k: int| from <= k < to ==> s[k] != c,
    ensures
        spec_find_from(s, from, c) == spec_find_from(s, to, c),
    decreases to - from,
{
    if from < to {
        lemma_find_from_skip(s, from + 1, to, c);
    }
}

/// On a line built from the recognized prefix, a backtick-quoted name
/// free of backticks, and any remainder, the parser reaches the
/// metadata stage with exactly that name and remainder.
proof fn lemma_parse_line_reduces(name: Seq<char>, meta: Seq<char>)
    requires
        !name.contains('`'),
    ensures
        spec_parse_line(type_line_prefix() + seq!['`'] + name + seq!['`'] + meta)
            == parse_metadata(name, meta),
{
    reveal_strlit("print-type-size type: ");
    let p = type_line_prefix();
    let line = p + seq!['`'] + name + seq!['`'] + meta;
    let plen = p.len() as int;
    let nlen = name.len() as int;
    assert(p.is_prefix_of(line)) by {
        assert(line.subrange(0, plen) =~= p);
    }
    assert forall|k: int| 0 <= k < plen implies line[k] != '`' by {
        assert(line[k] == p[k]);
    }
    lemma_find_from_skip(line, 0, plen, '`');
    assert(line[plen] == '`');
    assert(spec_find_from(line, 0, '`') == Some(plen));
    assert forall|k: int| plen + 1 <= k < plen + 1 + nlen implies line[k] != '`' by {
        assert(line[k] == name[k - plen - 1]);
        if line[k] == '`' {
            assert(name.contains('`'));
        }
    }
    lemma_find_from_skip(line, plen + 1, plen + 1 + nlen, '`');
    assert(line[plen + 1 + nlen] == '`');
    assert(spec_find_from(line, plen + 1, '`') == Some(plen + 1 + nlen));
    let mstart = plen + 2 + nlen;
    assert(line.subrange(plen + 1, plen + 1 + nlen) =~= name);
    assert(line.subrange(mstart, line.len() as int) =~= meta);
}

/// At the metadata stage, text of the shape `: <token><tail>` — the
/// token free of spaces, the tail empty or opening with one — hands
/// exactly that token to the size parser.
proof fn lemma_parse_metadata_token(name: Seq<char>, token: Seq<char>, tail: Seq<char>)
    requires
        !token.contains(' '),
        tail.len() == 0 || tail[0] == ' ',
    ensures
        parse_metadata(name, seq![':', ' '] + token + tail) == match spec_parse_usize(token) {
            Some(size) => Some(RecordModel { name, size: size as nat }),
            None => None::<RecordModel>,
        },
{
    let meta = seq![':', ' '] + token + tail;
    let tlen = token.len() as int;
    assert(meta[0] == ':');
    assert(meta[1] == ' ');
    assert(spec_find_from(meta, 1, ' ') == Some(1int));
    assert(spec_find_from(meta, 0, ' ') == Some(1int));
    assert forall|k: int| 2 <= k < 2 + tlen implies meta[k] != ' ' by {
        assert(meta[k] == token[k - 2]);
        if meta[k] == ' ' {
            assert(token.contains(' '));
        }
    }
    lemma_find_from_skip(meta, 2, 2 + tlen, ' ');
    if tail.len() == 0 {
        assert(spec_find_from(meta, 2 + tlen, ' ') is None);
    } else {
        assert(meta[2 + tlen] == ' ');
        assert(spec_find_from(meta, 2 + tlen, ' ') == Some(2 + tlen));
    }
    assert(meta.subrange(2, 2 + tlen) =~= token);
}

/// A numeral written by `decimal_of` reads back as the number it was
/// written from.
pub proof fn lemma_parse_usize_decimal(size: usize)
    ensures
        spec_parse_usize(crate::digits::decimal_of(size as nat)) == Some(size),
{
    crate::digits::lemma_decimal_of_val(size as nat);
    let dec = crate::digits::decimal_of(size as nat);
    assert(is_digit(dec[0]));
    assert(dec[0] != '+');
    assert(numeral_of(dec) == dec);
}

/// Every well-formed per-type summary line — the recognized prefix, a
/// backtick-quoted name, `: `, a size, and any further detail — parses
/// to exactly that name and size.
pub proof fn lemma_parse_well_formed_line(name: Seq<char>, size: usize, tail: Seq<char>)
    requires
        !name.contains('`'),
        tail.len() == 0 || tail[0] == ' ',
    ensures
        spec_parse_line(
            type_line_prefix() + seq!['`'] + name + seq!['`'] + (seq![':', ' ']
                + crate::digits::decimal_of(size as nat) + tail),
        ) == Some(RecordModel { name, size: size as nat }),
{
    crate::digits::lemma_decimal_of_val(size as nat);
    let dec = crate::digits::decimal_of(size as nat);
    let meta = seq![':', ' '] + dec + tail;
    assert(!dec.contains(' ')) by {
        if dec.contains(' ') {
            let w = choose|w: int| 0 <= w < dec.len() && dec[w] == ' ';
            assert(is_digit(dec[w]));
        }
    }
    lemma_parse_line_reduces(name, meta);
    lemma_parse_metadata_token(name, dec, tail);
    lemma_parse_usize_decimal(size);
}

/// A line of the recognized shape whose size token does not read as a
/// non-negative integer that fits yields no record, and no failure.
pub proof fn lemma_parse_bad_size_token(name: Seq<char>, token: Seq<char>, tail: Seq<char>)
    requires
        !name.contains('`'),
        !token.contains(' '),
        tail.len() == 0 || tail[0] == ' ',
        spec_parse_usize(token) is None,
    ensures
        spec_parse_line(
            type_line_prefix() + seq!['`'] + name + seq!['`'] + (seq![':', ' '] + token + tail),
        ) is None,
{
    lemma_parse_line_reduces(name, seq![':', ' '] + token + tail);
    lemma_parse_metadata_token(name, token, tail);
}

/// A line of the recognized shape with no size token at all — no space
/// anywhere after the name's closing backtick — yields no record.
pub proof fn lemma_parse_missing_size_token(name: Seq<char>, meta: Seq<char>)
    requires
        !name.contains('`'),
        !meta.contains(' '),
    ensures
        spec_parse_line(type_line_prefix() + seq!['`'] + name + seq!['`'] + meta) is None,
{
    lemma_parse_line_reduces(name, meta);
    assert forall|k: int| 0 <= k < meta.len() implies meta[k] != ' ' by {
        if meta[k] == ' ' {
            assert(meta.contains(' '));
        }
    }
    lemma_find_from_skip(meta, 0, meta.len() as int, ' ');
    assert(spec_find_from(meta, meta.len() as int, ' ') is None);
}

/// The records of a sequence of lines, in line order: one record per
/// line the parser recognizes, none for any other line.
pub open spec fn spec_parsed_records(lines: Seq<Seq<char>>) -> Seq<RecordModel>
    decreases lines.len(),
{
    if lines.len() == 0 {
        Seq::empty()
    } else {
        spec_parsed_records(lines.drop_last()) + (match spec_parse_line(lines.last()) {
            Some(r) => seq![r],
            None => Seq::empty(),
        })
    }
}

/// Runs the line parser over every line, in order, collecting the
/// records of the lines it recognizes.
pub fn parse_lines(lines: &Vec<String>) -> (r: Vec<TypeSizeRecord>)
    ensures
        crate::record::models_of(r@) == spec_parsed_records(
            lines@.map_values(|l: String| l@),
        ),
{
    let ghost views = lines@.map_values(|l: String| l@);
    let mut out: Vec<TypeSizeRecord> = Vec::new();
    let mut idx: usize = 0;
    while idx < lines.len()
        invariant
            idx <= lines.len(),
            views == lines@.map_values(|l: String| l@),
            crate::record::models_of(out@) == spec_parsed_records(views.take(idx as int)),
        decreases lines.len() - idx,
    {
        let ghost out_before = out@;
        let line = &lines[idx];
        let parsed = parse_line(line.as_str());
        match parsed {
            Some(rec) => {
                let ghost m = rec@;
                out.push(rec);
                proof {
                    assert(crate::record::models_of(out@) =~= crate::record::models_of(
                        out_before,
                    ) + seq![m]);
                }
            },
            None => {},
        }
        proof {
            assert(views.take(idx + 1).drop_last() =~= views.take(idx as int));
            assert(views.take(idx + 1).last() == views[idx as int]);
            assert(views[idx as int] == lines@[idx as int]@);
        }
        idx = idx + 1;
    }
    proof {
        assert(views.take(lines@.len() as int) =~= views);
    }
    out
}

} // verus!
