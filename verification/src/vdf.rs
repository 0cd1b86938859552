//! The grammar of the `"AuthorizedDevice"` section of a Steam `config.vdf`
//! file, as mathematical functions over byte sequences, together with the
//! executable extractor, renderer and patcher and the round-trip laws.
//!
//! A section looks like
//!
//! ```text
//! "AuthorizedDevice"
//! {
//!     "<id>"
//!     {
//!         "timeused"    "<timesUsed>"
//!         "description" "<description>"
//!         "tokenid"     "<tokenId>"
//!     }
//! }
//! ```
//!
//! with any mix of spaces, tabs and newlines between tokens.  `id` and
//! `timeused` are decimal digit strings, `tokenid` is an optionally negative
//! digit string, and `description` is non-empty free text without a double
//! quote.

use vstd::prelude::*;

verus! {

/// Double quote.
pub const QUOTE: u8 = 34;

/// Opening brace.
pub const LBRACE: u8 = 123;

/// Closing brace.
pub const RBRACE: u8 = 125;

/// Newline.
pub const NL: u8 = 10;

/// Space.
pub const SPACE: u8 = 32;

/// Minus sign.
pub const MINUS: u8 = 45;

/// The mathematical value of one authorized-device record: its four fields
/// as byte strings, exactly as they stand between the quotes in the file.
pub ghost struct DeviceView {
    pub id: Seq<u8>,
    pub timeused: Seq<u8>,
    pub description: Seq<u8>,
    pub tokenid: Seq<u8>,
}

/// Whitespace that may stand between tokens: space, tab, newline, carriage
/// return.
pub open spec fn is_ws(b: u8) -> bool {
    b == SPACE || b == 9 || b == NL || b == 13
}

/// A decimal digit.
pub open spec fn is_digit(b: u8) -> bool {
    48 <= b <= 57
}

/// A non-empty string of decimal digits (the shape of `id` and `timeused`).
pub open spec fn is_digits(s: Seq<u8>) -> bool {
    s.len() > 0 && forall|i: int| 0 <= i < s.len() ==> is_digit(#[trigger] s[i])
}

/// The shape of `tokenid`: digits, optionally preceded by a minus sign.
pub open spec fn is_token(s: Seq<u8>) -> bool {
    is_digits(s) || (s.len() > 1 && s[0] == MINUS && is_digits(s.skip(1)))
}

/// No double quote anywhere in the string.
pub open spec fn quote_free(s: Seq<u8>) -> bool {
    forall|i: int| 0 <= i < s.len() ==> #[trigger] s[i] != QUOTE
}

/// The shape of `description`: non-empty, quote-free free text.
pub open spec fn is_description(s: Seq<u8>) -> bool {
    s.len() > 0 && quote_free(s)
}

/// A record whose four fields all have the shape the grammar gives them.
pub open spec fn valid_record(r: DeviceView) -> bool {
    &&& is_digits(r.id)
    &&& is_digits(r.timeused)
    &&& is_description(r.description)
    &&& is_token(r.tokenid)
}

/// All records of a sequence are valid.
pub open spec fn valid_records(rs: Seq<DeviceView>) -> bool {
    forall|i: int| 0 <= i < rs.len() ==> valid_record(#[trigger] rs[i])
}

/// The section label, quotes included: `"AuthorizedDevice"`.
pub open spec fn section_label() -> Seq<u8> {
    seq![
        QUOTE, 65, 117, 116, 104, 111, 114, 105, 122, 101, 100, 68, 101, 118, 105, 99, 101,
        QUOTE,
    ]
}

/// The field key `timeused`, without quotes.
pub open spec fn key_timeused() -> Seq<u8> {
    seq![116, 105, 109, 101, 117, 115, 101, 100]
}

/// The field key `description`, without quotes.
pub open spec fn key_description() -> Seq<u8> {
    seq![100, 101, 115, 99, 114, 105, 112, 116, 105, 111, 110]
}

/// The field key `tokenid`, without quotes.
pub open spec fn key_tokenid() -> Seq<u8> {
    seq![116, 111, 107, 101, 110, 105, 100]
}

// ---------------------------------------------------------------------------
// Rendering: the canonical byte form the serializer emits.
// ---------------------------------------------------------------------------
/// One field line without its leading newline: `"<key>" "<value>"`.
pub open spec fn render_field(key: Seq<u8>, value: Seq<u8>) -> Seq<u8> {
    seq![QUOTE] + key + seq![QUOTE, SPACE, QUOTE] + value + seq![QUOTE]
}

/// One rendered record block:
/// `"<id>"\n{\n"timeused" "<t>"\n"description" "<d>"\n"tokenid" "<k>"\n}`.
pub open spec fn render_record(r: DeviceView) -> Seq<u8> {
    seq![QUOTE] + r.id + seq![QUOTE, NL, LBRACE, NL] + render_field(key_timeused(), r.timeused)
        + seq![NL] + render_field(key_description(), r.description) + seq![NL] + render_field(
        key_tokenid(),
        r.tokenid,
    ) + seq![NL, RBRACE]
}

/// The record blocks of a section body, each preceded by a newline.
pub open spec fn render_records(rs: Seq<DeviceView>) -> Seq<u8>
    decreases rs.len(),
{
    if rs.len() == 0 {
        Seq::empty()
    } else {
        seq![NL] + render_record(rs[0]) + render_records(rs.skip(1))
    }
}

/// A whole rendered section body, braces included:
/// `{` then the record blocks, then `\n}`.
pub open spec fn render_body(rs: Seq<DeviceView>) -> Seq<u8> {
    seq![LBRACE] + render_records(rs) + seq![NL, RBRACE]
}

// ---------------------------------------------------------------------------
// Parsing: a recursive-descent reading of the same grammar.
// ---------------------------------------------------------------------------
/// The first position at or after `i` holding a non-whitespace byte (or the
/// end of the sequence).
pub open spec fn skip_ws(s: Seq<u8>, i: int) -> int
    decreases s.len() - i,
{
    if 0 <= i < s.len() && is_ws(s[i]) {
        skip_ws(s, i + 1)
    } else {
        i
    }
}

/// The first position at or after `i` holding a double quote, if any.
pub open spec fn find_quote(s: Seq<u8>, i: int) -> Option<int>
    decreases s.len() - i,
{
    if !(0 <= i < s.len()) {
        None
    } else if s[i] == QUOTE {
        Some(i)
    } else {
        find_quote(s, i + 1)
    }
}

/// A quoted string starting exactly at `i`: its unquoted contents and the
/// position after the closing quote.
pub open spec fn parse_quoted(s: Seq<u8>, i: int) -> Option<(Seq<u8>, int)> {
    if 0 <= i < s.len() && s[i] == QUOTE {
        match find_quote(s, i + 1) {
            Some(j) => Some((s.subrange(i + 1, j), j + 1)),
            None => None,
        }
    } else {
        None
    }
}

/// A field line: whitespace, the quoted key `key`, whitespace, a quoted
/// value.  Yields the value and the position after its closing quote.
pub open spec fn parse_field(s: Seq<u8>, i: int, key: Seq<u8>) -> Option<(Seq<u8>, int)> {
    let i1 = skip_ws(s, i);
    match parse_quoted(s, i1) {
        Some((k, i2)) => if k == key {
            parse_quoted(s, skip_ws(s, i2))
        } else {
            None
        },
        None => None,
    }
}

/// One record block starting at the first non-whitespace byte at or after
/// `i`, with every field of the shape the grammar requires.  Yields the
/// record and the position after its closing brace.
pub open spec fn parse_record(s: Seq<u8>, i: int) -> Option<(DeviceView, int)> {
    match parse_quoted(s, skip_ws(s, i)) {
        Some((id, i2)) => if is_digits(id) {
            let i3 = skip_ws(s, i2);
            if 0 <= i3 < s.len() && s[i3] == LBRACE {
                match parse_field(s, i3 + 1, key_timeused()) {
                    Some((tu, i4)) => if is_digits(tu) {
                        match parse_field(s, i4, key_description()) {
                            Some((de, i5)) => if de.len() > 0 {
                                match parse_field(s, i5, key_tokenid()) {
                                    Some((tok, i6)) => if is_token(tok) {
                                        let i7 = skip_ws(s, i6);
                                        if 0 <= i7 < s.len() && s[i7] == RBRACE {
                                            Some(
                                                (
                                                    DeviceView {
                                                        id: id,
                                                        timeused: tu,
                                                        description: de,
                                                        tokenid: tok,
                                                    },
                                                    i7 + 1,
                                                ),
                                            )
                                        } else {
                                            None
                                        }
                                    } else {
                                        None
                                    },
                                    None => None,
                                }
                            } else {
                                None
                            },
                            None => None,
                        }
                    } else {
                        None
                    },
                    None => None,
                }
            } else {
                None
            }
        } else {
            None
        },
        None => None,
    }
}

/// Zero or more record blocks starting at `i`.  Stops at the first
/// non-whitespace byte that does not open a quoted id and yields that
/// position; fails if a block starts but does not match the grammar.
pub open spec fn parse_records(s: Seq<u8>, i: int) -> Option<(Seq<DeviceView>, int)>
    decreases s.len() - i,
{
    let j = skip_ws(s, i);
    if 0 <= j < s.len() && s[j] == QUOTE {
        match parse_record(s, i) {
            Some((r, k)) => if i < k <= s.len() {
                match parse_records(s, k) {
                    Some((rest, e)) => Some((seq![r] + rest, e)),
                    None => None,
                }
            } else {
                None
            },
            None => None,
        }
    } else {
        Some((Seq::empty(), j))
    }
}

/// The first position at or after `i` where the section label starts, if
/// any.
pub open spec fn find_label(s: Seq<u8>, i: int) -> Option<int>
    decreases s.len() - i,
{
    if !(0 <= i && i + section_label().len() <= s.len()) {
        None
    } else if s.subrange(i, i + section_label().len() as int) == section_label() {
        Some(i)
    } else {
        find_label(s, i + 1)
    }
}

/// Whether the document holds the section label at all.
pub open spec fn has_label(s: Seq<u8>) -> bool {
    find_label(s, 0) is Some
}

/// The located section of a document: the position of the opening brace of
/// the section body, the position just after its closing brace, and the
/// records the body holds.  `None` when the label is absent or the body does
/// not match the grammar.
pub open spec fn locate_section(s: Seq<u8>) -> Option<(int, int, Seq<DeviceView>)> {
    match find_label(s, 0) {
        Some(p) => {
            let b = skip_ws(s, p + section_label().len() as int);
            if 0 <= b < s.len() && s[b] == LBRACE {
                match parse_records(s, b + 1) {
                    Some((rs, j)) => if 0 <= j < s.len() && s[j] == RBRACE {
                        Some((b, j + 1, rs))
                    } else {
                        None
                    },
                    None => None,
                }
            } else {
                None
            }
        },
        None => None,
    }
}

/// The records of the document's section, when the section parses.
pub open spec fn section_records(s: Seq<u8>) -> Option<Seq<DeviceView>> {
    match locate_section(s) {
        Some((b, e, rs)) => Some(rs),
        None => None,
    }
}

/// The document with its section body replaced by the canonical rendering
/// of `rs`, everything else byte-identical.  `None` when the section cannot
/// be located.
pub open spec fn patch_document(s: Seq<u8>, rs: Seq<DeviceView>) -> Option<Seq<u8>> {
    match locate_section(s) {
        Some((b, e, _)) => Some(s.subrange(0, b) + render_body(rs) + s.subrange(e, s.len() as int)),
        None => None,
    }
}

// ---------------------------------------------------------------------------
// The executable record type.
// ---------------------------------------------------------------------------
/// One authorized-device record.  The four fields hold the bytes that stand
/// between the quotes in the file, verbatim.
#[derive(Debug, Hash)]
pub struct Device {
    /// Numeric account id, a decimal digit string.
    pub id: Vec<u8>,
    /// Opaque usage counter, a decimal digit string, preserved verbatim.
    pub timeused: Vec<u8>,
    /// Free text without a double quote.
    pub description: Vec<u8>,
    /// Numeric token, optionally negative, preserved verbatim.
    pub tokenid: Vec<u8>,
}

impl View for Device {
    type V = DeviceView;

    open spec fn view(&self) -> DeviceView {
        DeviceView {
            id: self.id@,
            timeused: self.timeused@,
            description: self.description@,
            tokenid: self.tokenid@,
        }
    }
}

/// The mathematical records behind a sequence of `Device`s.
pub open spec fn views_of(ds: Seq<Device>) -> Seq<DeviceView> {
    ds.map_values(|d: Device| d@)
}

// ---------------------------------------------------------------------------
// Executable scanning primitives, each equal to its specification function.
// ---------------------------------------------------------------------------
/// First position at or after `i` holding a non-whitespace byte.
pub fn ws_end(v: &Vec<u8>, i: usize) -> (r: usize)
    requires
        i <= v.len(),
    ensures
        r as int == skip_ws(v@, i as int),
        i <= r <= v.len(),
{
    let mut cur: usize = i;
    while cur < v.len() && (v[cur] == SPACE || v[cur] == 9 || v[cur] == NL || v[cur] == 13)
        invariant
            i <= cur <= v.len(),
            skip_ws(v@, i as int) == skip_ws(v@, cur as int),
        decreases v.len() - cur,
    {
        cur = cur + 1;
    }
    cur
}

/// First position at or after `i` holding a double quote, if any.
pub fn quote_from(v: &Vec<u8>, i: usize) -> (r: Option<usize>)
    requires
        i <= v.len(),
    ensures
        match r {
            Some(j) => find_quote(v@, i as int) == Some(j as int) && i <= j < v.len(),
            None => find_quote(v@, i as int) is None,
        },
{
    let mut cur: usize = i;
    while cur < v.len() && v[cur] != QUOTE
        invariant
            i <= cur <= v.len(),
            find_quote(v@, i as int) == find_quote(v@, cur as int),
        decreases v.len() - cur,
    {
        cur = cur + 1;
    }
    if cur < v.len() {
        Some(cur)
    } else {
        None
    }
}

/// A copy of the bytes of `v` from `a` (inclusive) to `b` (exclusive).
pub fn sub_vec(v: &Vec<u8>, a: usize, b: usize) -> (r: Vec<u8>)
    requires
        a <= b <= v.len(),
    ensures
        r@ == v@.subrange(a as int, b as int),
{
    let mut r: Vec<u8> = Vec::new();
    let mut j: usize = a;
    proof {
        assert(r@ =~= v@.subrange(a as int, a as int));
    }
    while j < b
        invariant
            a <= j <= b <= v.len(),
            r@ == v@.subrange(a as int, j as int),
        decreases b - j,
    {
        r.push(v[j]);
        proof {
            assert(r@ =~= v@.subrange(a as int, j + 1 as int));
        }
        j = j + 1;
    }
    r
}

/// Whether two byte vectors hold the same bytes.
pub fn bytes_eq(a: &Vec<u8>, b: &Vec<u8>) -> (r: bool)
    ensures
        r <==> a@ == b@,
{
    if a.len() != b.len() {
        return false;
    }
    let mut j: usize = 0;
    while j < a.len()
        invariant
            j <= a.len(),
            a.len() == b.len(),
            forall|k: int| 0 <= k < j ==> a@[k] == b@[k],
        decreases a.len() - j,
    {
        if a[j] != b[j] {
            return false;
        }
        j = j + 1;
    }
    proof {
        assert(a@ =~= b@);
    }
    true
}

/// The section label as bytes.
pub fn label_vec() -> (r: Vec<u8>)
    ensures
        r@ == section_label(),
{
    let mut r: Vec<u8> = Vec::new();
    r.push(QUOTE);
    r.push(65);
    r.push(117);
    r.push(116);
    r.push(104);
    r.push(111);
    r.push(114);
    r.push(105);
    r.push(122);
    r.push(101);
    r.push(100);
    r.push(68);
    r.push(101);
    r.push(118);
    r.push(105);
    r.push(99);
    r.push(101);
    r.push(QUOTE);
    proof {
        assert(r@ =~= section_label());
    }
    r
}

/// The key `timeused` as bytes.
pub fn key_timeused_vec() -> (r: Vec<u8>)
    ensures
        r@ == key_timeused(),
{
    let mut r: Vec<u8> = Vec::new();
    r.push(116);
    r.push(105);
    r.push(109);
    r.push(101);
    r.push(117);
    r.push(115);
    r.push(101);
    r.push(100);
    proof {
        assert(r@ =~= key_timeused());
    }
    r
}

/// The key `description` as bytes.
pub fn key_description_vec() -> (r: Vec<u8>)
    ensures
        r@ == key_description(),
{
    let mut r: Vec<u8> = Vec::new();
    r.push(100);
    r.push(101);
    r.push(115);
    r.push(99);
    r.push(114);
    r.push(105);
    r.push(112);
    r.push(116);
    r.push(105);
    r.push(111);
    r.push(110);
    proof {
        assert(r@ =~= key_description());
    }
    r
}

/// The key `tokenid` as bytes.
pub fn key_tokenid_vec() -> (r: Vec<u8>)
    ensures
        r@ == key_tokenid(),
{
    let mut r: Vec<u8> = Vec::new();
    r.push(116);
    r.push(111);
    r.push(107);
    r.push(101);
    r.push(110);
    r.push(105);
    r.push(100);
    proof {
        assert(r@ =~= key_tokenid());
    }
    r
}

/// Whether `v` is a non-empty string of decimal digits.
pub fn digits_check(v: &Vec<u8>) -> (r: bool)
    ensures
        r == is_digits(v@),
{
    if v.len() == 0 {
        return false;
    }
    let mut j: usize = 0;
    while j < v.len()
        invariant
            j <= v.len(),
            forall|k: int| 0 <= k < j ==> is_digit(#[trigger] v@[k]),
        decreases v.len() - j,
    {
        let b = v[j];
        if b < 48 || b > 57 {
            return false;
        }
        j = j + 1;
    }
    true
}

/// Whether `v` is a digit string, optionally preceded by a minus sign.
pub fn token_check(v: &Vec<u8>) -> (r: bool)
    ensures
        r == is_token(v@),
{
    if v.len() == 0 {
        return false;
    }
    if v[0] == MINUS {
        if v.len() == 1 {
            return false;
        }
        let mut j: usize = 1;
        while j < v.len()
            invariant
                1 <= j <= v.len(),
                forall|k: int| 1 <= k < j ==> is_digit(#[trigger] v@[k]),
            decreases v.len() - j,
        {
            let b = v[j];
            if b < 48 || b > 57 {
                proof {
                    assert(v@.skip(1)[j - 1] == v@[j as int]);
                    assert(!is_digits(v@.skip(1)));
                    assert(!is_digits(v@));
                }
                return false;
            }
            j = j + 1;
        }
        proof {
            assert(forall|k: int|
                0 <= k < v@.skip(1).len() ==> is_digit(#[trigger] v@.skip(1)[k]));
            assert(is_digits(v@.skip(1)));
        }
        true
    } else {
        digits_check(v)
    }
}

/// A quoted string starting exactly at `i`, as the grammar's `parse_quoted`
/// reads it.
pub fn parse_quoted_at(v: &Vec<u8>, i: usize) -> (r: Option<(Vec<u8>, usize)>)
    requires
        i <= v.len(),
    ensures
        match r {
            Some((c, j)) => parse_quoted(v@, i as int) == Some((c@, j as int)) && i < j <= v.len(),
            None => parse_quoted(v@, i as int) is None,
        },
{
    if i < v.len() && v[i] == QUOTE {
        match quote_from(v, i + 1) {
            Some(j) => {
                let c = sub_vec(v, i + 1, j);
                Some((c, j + 1))
            },
            None => None,
        }
    } else {
        None
    }
}

/// A field line (`"key" "value"` with surrounding whitespace), as the
/// grammar's `parse_field` reads it.
pub fn parse_field_at(v: &Vec<u8>, i: usize, key: &Vec<u8>) -> (r: Option<(Vec<u8>, usize)>)
    requires
        i <= v.len(),
    ensures
        match r {
            Some((c, j)) => parse_field(v@, i as int, key@) == Some((c@, j as int)) && i < j
                <= v.len(),
            None => parse_field(v@, i as int, key@) is None,
        },
{
    let i1 = ws_end(v, i);
    match parse_quoted_at(v, i1) {
        Some((k, i2)) => {
            if bytes_eq(&k, key) {
                let i3 = ws_end(v, i2);
                parse_quoted_at(v, i3)
            } else {
                None
            }
        },
        None => None,
    }
}

/// One record block, as the grammar's `parse_record` reads it.
pub fn parse_record_at(v: &Vec<u8>, i: usize) -> (r: Option<(Device, usize)>)
    requires
        i <= v.len(),
    ensures
        match r {
            Some((d, j)) => parse_record(v@, i as int) == Some((d@, j as int)) && i < j <= v.len(),
            None => parse_record(v@, i as int) is None,
        },
{
    let i1 = ws_end(v, i);
    match parse_quoted_at(v, i1) {
        None => None,
        Some((idb, i2)) => {
            if !digits_check(&idb) {
                return None;
            }
            let i3 = ws_end(v, i2);
            if i3 == v.len() {
                return None;
            }
            if v[i3] != LBRACE {
                return None;
            }
            let kt = key_timeused_vec();
            match parse_field_at(v, i3 + 1, &kt) {
                None => None,
                Some((tu, i4)) => {
                    if !digits_check(&tu) {
                        return None;
                    }
                    let kd = key_description_vec();
                    match parse_field_at(v, i4, &kd) {
                        None => None,
                        Some((de, i5)) => {
                            if de.len() == 0 {
                                return None;
                            }
                            let kk = key_tokenid_vec();
                            match parse_field_at(v, i5, &kk) {
                                None => None,
                                Some((tok, i6)) => {
                                    if !token_check(&tok) {
                                        return None;
                                    }
                                    let i7 = ws_end(v, i6);
                                    if i7 < v.len() && v[i7] == RBRACE {
                                        Some(
                                            (
                                                Device {
                                                    id: idb,
                                                    timeused: tu,
                                                    description: de,
                                                    tokenid: tok,
                                                },
                                                i7 + 1,
                                            ),
                                        )
                                    } else {
                                        None
                                    }
                                },
                            }
                        },
                    }
                },
            }
        },
    }
}

/// `views_of` distributes over `push`.
proof fn lemma_views_push(ds: Seq<Device>, d: Device)
    ensures
        views_of(ds.push(d)) == views_of(ds) + seq![d@],
{
    assert(views_of(ds.push(d)) =~= views_of(ds) + seq![d@]);
}

/// Zero or more record blocks, as the grammar's `parse_records` reads them.
pub fn parse_records_at(v: &Vec<u8>, i: usize) -> (r: Option<(Vec<Device>, usize)>)
    requires
        i <= v.len(),
    ensures
        match r {
            Some((ds, j)) => parse_records(v@, i as int) == Some((views_of(ds@), j as int)) && i
                <= j <= v.len(),
            None => parse_records(v@, i as int) is None,
        },
{
    let mut acc: Vec<Device> = Vec::new();
    let mut cur: usize = i;
    proof {
        assert(views_of(acc@) =~= Seq::<DeviceView>::empty());
    }
    loop
        invariant
            i <= cur <= v.len(),
            (match parse_records(v@, cur as int) {
                Some((rest, e)) => parse_records(v@, i as int) == Some(
                    (views_of(acc@) + rest, e),
                ),
                None => parse_records(v@, i as int) is None,
            }),
        decreases v.len() - cur,
    {
        let j = ws_end(v, cur);
        if j < v.len() && v[j] == QUOTE {
            match parse_record_at(v, cur) {
                Some((d, k)) => {
                    proof {
                        lemma_views_push(acc@, d);
                    }
                    let ghost old_acc = acc@;
                    acc.push(d);
                    proof {
                        assert(parse_records(v@, cur as int) == (match parse_records(
                            v@,
                            k as int,
                        ) {
                            Some((rest, e)) => Some((seq![d@] + rest, e)),
                            None => None::<(Seq<DeviceView>, int)>,
                        }));
                        if let Some((rest, e)) = parse_records(v@, k as int) {
                            assert(views_of(old_acc) + (seq![d@] + rest) =~= views_of(acc@)
                                + rest);
                        }
                    }
                    cur = k;
                },
                None => {
                    return None;
                },
            }
        } else {
            proof {
                assert(parse_records(v@, cur as int) == Some(
                    (Seq::<DeviceView>::empty(), j as int),
                ));
                assert(views_of(acc@) + Seq::<DeviceView>::empty() =~= views_of(acc@));
            }
            return Some((acc, j));
        }
    }
}

/// The first occurrence of the section label in the document, if any.
pub fn find_label_at(v: &Vec<u8>) -> (r: Option<usize>)
    ensures
        match r {
            Some(p) => find_label(v@, 0) == Some(p as int) && p as int + section_label().len()
                <= v.len(),
            None => find_label(v@, 0) is None,
        },
{
    let lab = label_vec();
    if v.len() < lab.len() {
        return None;
    }
    let mut cur: usize = 0;
    while cur <= v.len() - lab.len()
        invariant
            lab@ == section_label(),
            lab.len() <= v.len(),
            cur <= v.len() - lab.len() + 1,
            find_label(v@, 0) == find_label(v@, cur as int),
        decreases v.len() - cur,
    {
        let piece = sub_vec(v, cur, cur + lab.len());
        if bytes_eq(&piece, &lab) {
            return Some(cur);
        }
        proof {
            assert(find_label(v@, cur as int) == find_label(v@, cur as int + 1));
        }
        cur = cur + 1;
    }
    None
}

/// The located section of the document, as the grammar's `locate_section`
/// finds it: the body's opening-brace position, the position after its
/// closing brace, and the records.
pub fn locate_section_at(v: &Vec<u8>) -> (r: Option<(usize, usize, Vec<Device>)>)
    ensures
        match r {
            Some((b, e, ds)) => locate_section(v@) == Some(
                (b as int, e as int, views_of(ds@)),
            ) && b < e <= v.len(),
            None => locate_section(v@) is None,
        },
{
    match find_label_at(v) {
        None => None,
        Some(p) => {
            let b = ws_end(v, p + 18);
            if b == v.len() {
                return None;
            }
            if v[b] != LBRACE {
                return None;
            }
            match parse_records_at(v, b + 1) {
                None => None,
                Some((ds, j)) => {
                    if j < v.len() && v[j] == RBRACE {
                        Some((b, j + 1, ds))
                    } else {
                        None
                    }
                },
            }
        },
    }
}

// ---------------------------------------------------------------------------
// The executable renderer, byte-identical to the rendering functions.
// ---------------------------------------------------------------------------
/// Appends all bytes of `src` to `dst`.
pub fn push_bytes(dst: &mut Vec<u8>, src: &Vec<u8>)
    ensures
        final (dst)@ == old(dst)@ + src@,
{
    let mut j: usize = 0;
    proof {
        assert(dst@ =~= old(dst)@ + src@.subrange(0, 0));
    }
    while j < src.len()
        invariant
            j <= src.len(),
            dst@ == old(dst)@ + src@.subrange(0, j as int),
        decreases src.len() - j,
    {
        dst.push(src[j]);
        proof {
            assert(dst@ =~= old(dst)@ + src@.subrange(0, j + 1 as int));
        }
        j = j + 1;
    }
    proof {
        assert(src@.subrange(0, src@.len() as int) =~= src@);
    }
}

/// Appends one rendered field line, `"key" "value"`, to `dst`.
fn push_field(dst: &mut Vec<u8>, key: &Vec<u8>, value: &Vec<u8>)
    ensures
        final (dst)@ == old(dst)@ + render_field(key@, value@),
{
    dst.push(QUOTE);
    push_bytes(dst, key);
    dst.push(QUOTE);
    dst.push(SPACE);
    dst.push(QUOTE);
    push_bytes(dst, value);
    dst.push(QUOTE);
    proof {
        assert(dst@ =~= old(dst)@ + render_field(key@, value@));
    }
}

/// Appends one rendered record block to `dst`.
fn push_record(dst: &mut Vec<u8>, d: &Device)
    ensures
        final (dst)@ == old(dst)@ + render_record(d@),
{
    dst.push(QUOTE);
    push_bytes(dst, &d.id);
    dst.push(QUOTE);
    dst.push(NL);
    dst.push(LBRACE);
    dst.push(NL);
    let kt = key_timeused_vec();
    push_field(dst, &kt, &d.timeused);
    dst.push(NL);
    let kd = key_description_vec();
    push_field(dst, &kd, &d.description);
    dst.push(NL);
    let kk = key_tokenid_vec();
    push_field(dst, &kk, &d.tokenid);
    dst.push(NL);
    dst.push(RBRACE);
    proof {
        assert(dst@ =~= old(dst)@ + render_record(d@));
    }
}

/// `render_records` distributes over `push`.
pub proof fn lemma_render_records_snoc(rs: Seq<DeviceView>, r: DeviceView)
    ensures
        render_records(rs.push(r)) == render_records(rs) + seq![NL] + render_record(r),
    decreases rs.len(),
{
    if rs.len() == 0 {
        assert(rs.push(r)[0] == r);
        assert(rs.push(r).skip(1) =~= Seq::<DeviceView>::empty());
        assert(render_records(rs.push(r).skip(1)) == render_records(Seq::<DeviceView>::empty()));
        assert(render_records(Seq::<DeviceView>::empty()) == Seq::<u8>::empty());
        assert(render_records(rs.push(r)) == seq![NL] + render_record(r) + Seq::<u8>::empty());
        assert(render_records(rs) == Seq::<u8>::empty());
        assert(render_records(rs.push(r)) =~= render_records(rs) + seq![NL] + render_record(r));
    } else {
        lemma_render_records_snoc(rs.skip(1), r);
        assert(rs.push(r).skip(1) =~= rs.skip(1).push(r));
        assert(rs.push(r)[0] == rs[0]);
        assert(render_records(rs.push(r)) == seq![NL] + render_record(rs[0]) + (render_records(
            rs.skip(1),
        ) + seq![NL] + render_record(r)));
        assert(render_records(rs.push(r)) =~= render_records(rs) + seq![NL] + render_record(r));
    }
}

/// The canonical rendering of a whole section body, braces included.
pub fn render_body_vec(ds: &Vec<Device>) -> (r: Vec<u8>)
    ensures
        r@ == render_body(views_of(ds@)),
{
    let mut out: Vec<u8> = Vec::new();
    out.push(LBRACE);
    proof {
        assert(views_of(ds@.subrange(0, 0)) =~= Seq::<DeviceView>::empty());
        assert(out@ =~= seq![LBRACE] + render_records(views_of(ds@.subrange(0, 0))));
    }
    let mut j: usize = 0;
    while j < ds.len()
        invariant
            j <= ds.len(),
            out@ == seq![LBRACE] + render_records(views_of(ds@.subrange(0, j as int))),
        decreases ds.len() - j,
    {
        out.push(NL);
        push_record(&mut out, &ds[j]);
        proof {
            let pre = ds@.subrange(0, j as int);
            let d = ds@[j as int];
            assert(ds@.subrange(0, j + 1 as int) =~= pre.push(d));
            lemma_views_push(pre, d);
            assert(views_of(pre) + seq![d@] =~= views_of(pre).push(d@));
            lemma_render_records_snoc(views_of(pre), d@);
            assert(views_of(ds@.subrange(0, j + 1 as int)) == views_of(pre).push(d@));
            assert(render_records(views_of(ds@.subrange(0, j + 1 as int))) == render_records(
                views_of(pre),
            ) + seq![NL] + render_record(d@));
            assert(out@ =~= seq![LBRACE] + render_records(views_of(ds@.subrange(0, j + 1 as int))));
        }
        j = j + 1;
    }
    out.push(NL);
    out.push(RBRACE);
    proof {
        assert(ds@.subrange(0, ds@.len() as int) =~= ds@);
        assert(out@ =~= render_body(views_of(ds@)));
    }
    out
}

// ---------------------------------------------------------------------------
// Properties of the scanning functions.
// ---------------------------------------------------------------------------
/// `skip_ws` stays inside the sequence, skips only whitespace, and stops at
/// the first non-whitespace byte.
pub proof fn lemma_skip_ws_props(s: Seq<u8>, i: int)
    requires
        0 <= i <= s.len(),
    ensures
        i <= skip_ws(s, i) <= s.len(),
        forall|k: int| i <= k < skip_ws(s, i) ==> is_ws(#[trigger] s[k]),
        skip_ws(s, i) < s.len() ==> !is_ws(s[skip_ws(s, i)]),
    decreases s.len() - i,
{
    if i < s.len() && is_ws(s[i]) {
        lemma_skip_ws_props(s, i + 1);
    }
}

/// A run of whitespace ending at a non-whitespace byte (or the end)
/// determines where `skip_ws` stops.
pub proof fn lemma_skip_ws_determined(s: Seq<u8>, i: int, j: int)
    requires
        0 <= i <= j <= s.len(),
        forall|k: int| i <= k < j ==> is_ws(#[trigger] s[k]),
        j == s.len() || !is_ws(s[j]),
    ensures
        skip_ws(s, i) == j,
    decreases j - i,
{
    if i < j {
        lemma_skip_ws_determined(s, i + 1, j);
    }
}

/// What `find_quote` yields: the first quote at or after `i`, if any.
pub proof fn lemma_find_quote_props(s: Seq<u8>, i: int)
    requires
        0 <= i <= s.len(),
    ensures
        match find_quote(s, i) {
            Some(j) => i <= j < s.len() && s[j] == QUOTE && forall|k: int|
                i <= k < j ==> #[trigger] s[k] != QUOTE,
            None => forall|k: int| i <= k < s.len() ==> #[trigger] s[k] != QUOTE,
        },
    decreases s.len() - i,
{
    if i < s.len() && s[i] != QUOTE {
        lemma_find_quote_props(s, i + 1);
    }
}

/// A quote preceded by a quote-free run determines what `find_quote` yields.
pub proof fn lemma_find_quote_determined(s: Seq<u8>, i: int, j: int)
    requires
        0 <= i <= j < s.len(),
        s[j] == QUOTE,
        forall|k: int| i <= k < j ==> #[trigger] s[k] != QUOTE,
    ensures
        find_quote(s, i) == Some(j),
    decreases j - i,
{
    if i < j {
        lemma_find_quote_determined(s, i + 1, j);
    }
}

/// The contents of a parsed quoted string are quote-free, and the yielded
/// position is just after the closing quote.
pub proof fn lemma_parse_quoted_content(s: Seq<u8>, i: int)
    requires
        0 <= i <= s.len(),
    ensures
        match parse_quoted(s, i) {
            Some((c, j)) => quote_free(c) && i + 2 + c.len() == j && i + 2 <= j <= s.len(),
            None => true,
        },
{
    if i < s.len() && s[i] == QUOTE {
        lemma_find_quote_props(s, i + 1);
    }
}

/// A parsed field value is quote-free and the parse advances.
pub proof fn lemma_parse_field_post(s: Seq<u8>, i: int, key: Seq<u8>)
    requires
        0 <= i <= s.len(),
    ensures
        match parse_field(s, i, key) {
            Some((c, j)) => quote_free(c) && i < j <= s.len(),
            None => true,
        },
{
    lemma_skip_ws_props(s, i);
    let i1 = skip_ws(s, i);
    lemma_parse_quoted_content(s, i1);
    match parse_quoted(s, i1) {
        Some((k1, i2)) => {
            if k1 == key {
                lemma_skip_ws_props(s, i2);
                lemma_parse_quoted_content(s, skip_ws(s, i2));
            }
        },
        None => {},
    }
}

/// A parsed record is valid, and the parse advances.
pub proof fn lemma_parse_record_valid(s: Seq<u8>, i: int)
    requires
        0 <= i <= s.len(),
    ensures
        match parse_record(s, i) {
            Some((r, k)) => valid_record(r) && i < k <= s.len(),
            None => true,
        },
{
    lemma_skip_ws_props(s, i);
    let i1 = skip_ws(s, i);
    lemma_parse_quoted_content(s, i1);
    match parse_quoted(s, i1) {
        Some((id, i2)) => {
            if is_digits(id) {
                lemma_skip_ws_props(s, i2);
                let i3 = skip_ws(s, i2);
                if i3 < s.len() && s[i3] == LBRACE {
                    lemma_parse_field_post(s, i3 + 1, key_timeused());
                    match parse_field(s, i3 + 1, key_timeused()) {
                        Some((tu, i4)) => {
                            if is_digits(tu) {
                                lemma_parse_field_post(s, i4, key_description());
                                match parse_field(s, i4, key_description()) {
                                    Some((de, i5)) => {
                                        if de.len() > 0 {
                                            lemma_parse_field_post(s, i5, key_tokenid());
                                            match parse_field(s, i5, key_tokenid()) {
                                                Some((tok, i6)) => {
                                                    lemma_skip_ws_props(s, i6);
                                                },
                                                None => {},
                                            }
                                        }
                                    },
                                    None => {},
                                }
                            }
                        },
                        None => {},
                    }
                }
            }
        },
        None => {},
    }
}

/// Every record a successful `parse_records` yields is valid.
pub proof fn lemma_parse_records_valid(s: Seq<u8>, i: int)
    requires
        0 <= i <= s.len(),
    ensures
        match parse_records(s, i) {
            Some((rs, e)) => valid_records(rs) && i <= e <= s.len(),
            None => true,
        },
    decreases s.len() - i,
{
    lemma_skip_ws_props(s, i);
    let j = skip_ws(s, i);
    if 0 <= j < s.len() && s[j] == QUOTE {
        lemma_parse_record_valid(s, i);
        match parse_record(s, i) {
            Some((r, k)) => {
                if i < k <= s.len() {
                    lemma_parse_records_valid(s, k);
                    match parse_records(s, k) {
                        Some((rest, e)) => {
                            assert(forall|m: int|
                                0 <= m < (seq![r] + rest).len() ==> valid_record(
                                    #[trigger] (seq![r] + rest)[m],
                                ));
                        },
                        None => {},
                    }
                }
            },
            None => {},
        }
    }
}

/// Every record of a located section is valid.
pub proof fn lemma_locate_section_valid(s: Seq<u8>)
    ensures
        match locate_section(s) {
            Some((b, e, rs)) => valid_records(rs) && 0 <= b < e <= s.len(),
            None => true,
        },
{
    match find_label(s, 0) {
        Some(p) => {
            lemma_find_label_props(s, 0);
            lemma_skip_ws_props(s, p + section_label().len() as int);
            let b = skip_ws(s, p + section_label().len() as int);
            if 0 <= b < s.len() && s[b] == LBRACE {
                lemma_parse_records_valid(s, b + 1);
            }
        },
        None => {},
    }
}

/// What `find_label` yields: a position where the label stands, with no
/// earlier occurrence at or after `i`.
pub proof fn lemma_find_label_props(s: Seq<u8>, i: int)
    requires
        0 <= i,
    ensures
        match find_label(s, i) {
            Some(p) => i <= p && p + section_label().len() <= s.len() && s.subrange(
                p,
                p + section_label().len() as int,
            ) == section_label() && forall|q: int|
                i <= q < p ==> #[trigger] s.subrange(q, q + section_label().len() as int)
                    != section_label(),
            None => forall|q: int|
                i <= q && q + section_label().len() <= s.len() ==> #[trigger] s.subrange(
                    q,
                    q + section_label().len() as int,
                ) != section_label(),
        },
    decreases s.len() - i,
{
    if !(0 <= i && i + section_label().len() <= s.len()) {
    } else if s.subrange(i, i + section_label().len() as int) == section_label() {
    } else {
        lemma_find_label_props(s, i + 1);
    }
}

// ---------------------------------------------------------------------------
// Exactness: parsing reads rendered bytes back as the records they came
// from.
// ---------------------------------------------------------------------------
/// A digit string holds no double quote.
pub proof fn lemma_digits_quote_free(t: Seq<u8>)
    requires
        is_digits(t),
    ensures
        quote_free(t),
{
}

/// A token holds no double quote.
pub proof fn lemma_token_quote_free(t: Seq<u8>)
    requires
        is_token(t),
    ensures
        quote_free(t),
{
    if is_digits(t) {
        lemma_digits_quote_free(t);
    } else {
        assert forall|k: int| 0 <= k < t.len() implies t[k] != QUOTE by {
            if k > 0 {
                assert(t.skip(1)[k - 1] == t[k]);
            }
        };
    }
}

/// A quoted, quote-free `content` standing verbatim at `i` parses back to
/// exactly `content`.
pub proof fn lemma_parse_quoted_exact(s: Seq<u8>, i: int, content: Seq<u8>)
    requires
        0 <= i,
        i + content.len() + 2 <= s.len(),
        s[i] == QUOTE,
        s.subrange(i + 1, i + 1 + content.len() as int) == content,
        s[i + 1 + content.len()] == QUOTE,
        quote_free(content),
    ensures
        parse_quoted(s, i) == Some((content, i + content.len() + 2)),
{
    let j = i + 1 + content.len() as int;
    assert forall|k: int| i + 1 <= k < j implies s[k] != QUOTE by {
        assert(s.subrange(i + 1, j)[k - (i + 1)] == s[k]);
        assert(content[k - (i + 1)] != QUOTE);
    };
    lemma_find_quote_determined(s, i + 1, j);
    assert(s.subrange(i + 1, j) == content);
}

/// A rendered field line standing verbatim at `p` (the stop of `skip_ws`
/// from `i`) parses back to exactly its value.
pub proof fn lemma_parse_field_exact(s: Seq<u8>, i: int, p: int, key: Seq<u8>, value: Seq<u8>)
    requires
        0 <= i <= s.len(),
        skip_ws(s, i) == p,
        p + render_field(key, value).len() <= s.len(),
        s.subrange(p, p + render_field(key, value).len() as int) == render_field(key, value),
        quote_free(key),
        quote_free(value),
    ensures
        parse_field(s, i, key) == Some((value, p + render_field(key, value).len())),
{
    lemma_skip_ws_props(s, i);
    let f = render_field(key, value);
    let kl = key.len() as int;
    let vl = value.len() as int;
    let fl = f.len() as int;
    assert(fl == kl + vl + 5);
    assert(f[0] == QUOTE);
    assert(f[1 + kl] == QUOTE);
    assert(f[2 + kl] == SPACE);
    assert(f[3 + kl] == QUOTE);
    assert(f[4 + kl + vl] == QUOTE);
    assert(s[p] == f[0]) by {
        assert(s.subrange(p, p + fl)[0] == s[p]);
    }
    assert(s[p + 1 + kl] == f[1 + kl]) by {
        assert(s.subrange(p, p + fl)[1 + kl] == s[p + 1 + kl]);
    }
    assert(s[p + 2 + kl] == f[2 + kl]) by {
        assert(s.subrange(p, p + fl)[2 + kl] == s[p + 2 + kl]);
    }
    assert(s[p + 3 + kl] == f[3 + kl]) by {
        assert(s.subrange(p, p + fl)[3 + kl] == s[p + 3 + kl]);
    }
    assert(s[p + 4 + kl + vl] == f[4 + kl + vl]) by {
        assert(s.subrange(p, p + fl)[4 + kl + vl] == s[p + 4 + kl + vl]);
    }
    s.lemma_slice_of_slice(p, p + fl, 1, 1 + kl);
    assert(f.subrange(1, 1 + kl) =~= key);
    assert(s.subrange(p + 1, p + 1 + kl) == key);
    s.lemma_slice_of_slice(p, p + fl, 4 + kl, 4 + kl + vl);
    assert(f.subrange(4 + kl, 4 + kl + vl) =~= value);
    assert(s.subrange(p + 4 + kl, p + 4 + kl + vl) == value);
    lemma_parse_quoted_exact(s, p, key);
    assert(parse_quoted(s, p) == Some((key, p + kl + 2)));
    assert(is_ws(s[p + 2 + kl]));
    lemma_skip_ws_determined(s, p + kl + 2, p + kl + 3);
    assert(s.subrange(p + kl + 4, p + kl + 4 + vl) == value);
    lemma_parse_quoted_exact(s, p + kl + 3, value);
    assert(parse_quoted(s, p + kl + 3) == Some((value, p + kl + vl + 5)));
    assert(parse_field(s, i, key) == Some((value, p + fl)));
}

/// A rendered record block standing verbatim at `p` (the stop of `skip_ws`
/// from `i`) parses back to exactly its record.
#[verifier::rlimit(60)]
pub proof fn lemma_parse_record_exact(s: Seq<u8>, i: int, p: int, r: DeviceView)
    requires
        0 <= i <= s.len(),
        skip_ws(s, i) == p,
        valid_record(r),
        p + render_record(r).len() <= s.len(),
        s.subrange(p, p + render_record(r).len() as int) == render_record(r),
    ensures
        parse_record(s, i) == Some((r, p + render_record(r).len())),
{
    lemma_skip_ws_props(s, i);
    let b = render_record(r);
    let n = r.id.len() as int;
    let f1 = render_field(key_timeused(), r.timeused);
    let f2 = render_field(key_description(), r.description);
    let f3 = render_field(key_tokenid(), r.tokenid);
    let l1 = f1.len() as int;
    let l2 = f2.len() as int;
    let l3 = f3.len() as int;
    let bl = b.len() as int;
    assert(bl == 9 + n + l1 + l2 + l3);
    assert(b[0] == QUOTE);
    assert(b[1 + n] == QUOTE);
    assert(b[2 + n] == NL);
    assert(b[3 + n] == LBRACE);
    assert(b[4 + n] == NL);
    assert(b[5 + n + l1] == NL);
    assert(b[6 + n + l1 + l2] == NL);
    assert(b[7 + n + l1 + l2 + l3] == NL);
    assert(b[8 + n + l1 + l2 + l3] == RBRACE);
    assert(s[p] == b[0]) by {
        assert(s.subrange(p, p + bl)[0] == s[p]);
    }
    assert(s[p + 1 + n] == b[1 + n]) by {
        assert(s.subrange(p, p + bl)[1 + n] == s[p + 1 + n]);
    }
    assert(s[p + 2 + n] == b[2 + n]) by {
        assert(s.subrange(p, p + bl)[2 + n] == s[p + 2 + n]);
    }
    assert(s[p + 3 + n] == b[3 + n]) by {
        assert(s.subrange(p, p + bl)[3 + n] == s[p + 3 + n]);
    }
    assert(s[p + 4 + n] == b[4 + n]) by {
        assert(s.subrange(p, p + bl)[4 + n] == s[p + 4 + n]);
    }
    assert(s[p + 5 + n + l1] == b[5 + n + l1]) by {
        assert(s.subrange(p, p + bl)[5 + n + l1] == s[p + 5 + n + l1]);
    }
    assert(s[p + 6 + n + l1 + l2] == b[6 + n + l1 + l2]) by {
        assert(s.subrange(p, p + bl)[6 + n + l1 + l2] == s[p + 6 + n + l1 + l2]);
    }
    assert(s[p + 7 + n + l1 + l2 + l3] == b[7 + n + l1 + l2 + l3]) by {
        assert(s.subrange(p, p + bl)[7 + n + l1 + l2 + l3] == s[p + 7 + n + l1 + l2 + l3]);
    }
    assert(s[p + 8 + n + l1 + l2 + l3] == b[8 + n + l1 + l2 + l3]) by {
        assert(s.subrange(p, p + bl)[8 + n + l1 + l2 + l3] == s[p + 8 + n + l1 + l2 + l3]);
    }
    s.lemma_slice_of_slice(p, p + bl, 1, 1 + n);
    assert(b.subrange(1, 1 + n) =~= r.id);
    assert(s.subrange(p + 1, p + 1 + n) == r.id);
    s.lemma_slice_of_slice(p, p + bl, 5 + n, 5 + n + l1);
    assert(b.subrange(5 + n, 5 + n + l1) =~= f1);
    assert(s.subrange(p + 5 + n, p + 5 + n + l1) == f1);
    s.lemma_slice_of_slice(p, p + bl, 6 + n + l1, 6 + n + l1 + l2);
    assert(b.subrange(6 + n + l1, 6 + n + l1 + l2) =~= f2);
    assert(s.subrange(p + 6 + n + l1, p + 6 + n + l1 + l2) == f2);
    s.lemma_slice_of_slice(p, p + bl, 7 + n + l1 + l2, 7 + n + l1 + l2 + l3);
    assert(b.subrange(7 + n + l1 + l2, 7 + n + l1 + l2 + l3) =~= f3);
    assert(s.subrange(p + 7 + n + l1 + l2, p + 7 + n + l1 + l2 + l3) == f3);
    lemma_digits_quote_free(r.id);
    lemma_parse_quoted_exact(s, p, r.id);
    assert(parse_quoted(s, p) == Some((r.id, p + n + 2)));
    lemma_skip_ws_determined(s, p + n + 2, p + n + 3);
    lemma_digits_quote_free(r.timeused);
    lemma_token_quote_free(r.tokenid);
    assert(quote_free(key_timeused()));
    assert(quote_free(key_description()));
    assert(quote_free(key_tokenid()));
    assert(s[p + 5 + n] == f1[0]) by {
        assert(f1.subrange(0, l1)[0] == f1[0]);
        assert(s.subrange(p + 5 + n, p + 5 + n + l1)[0] == s[p + 5 + n]);
    }
    assert(f1[0] == QUOTE);
    lemma_skip_ws_determined(s, p + n + 4, p + n + 5);
    lemma_parse_field_exact(s, p + n + 4, p + n + 5, key_timeused(), r.timeused);
    assert(parse_field(s, p + n + 4, key_timeused()) == Some((r.timeused, p + n + 5 + l1)));
    assert(s[p + 6 + n + l1] == f2[0]) by {
        assert(s.subrange(p + 6 + n + l1, p + 6 + n + l1 + l2)[0] == s[p + 6 + n + l1]);
    }
    assert(f2[0] == QUOTE);
    lemma_skip_ws_determined(s, p + n + 5 + l1, p + n + 6 + l1);
    lemma_parse_field_exact(s, p + n + 5 + l1, p + n + 6 + l1, key_description(), r.description);
    assert(parse_field(s, p + n + 5 + l1, key_description()) == Some(
        (r.description, p + n + 6 + l1 + l2),
    ));
    assert(s[p + 7 + n + l1 + l2] == f3[0]) by {
        assert(s.subrange(p + 7 + n + l1 + l2, p + 7 + n + l1 + l2 + l3)[0] == s[p + 7 + n + l1
            + l2]);
    }
    assert(f3[0] == QUOTE);
    lemma_skip_ws_determined(s, p + n + 6 + l1 + l2, p + n + 7 + l1 + l2);
    lemma_parse_field_exact(s, p + n + 6 + l1 + l2, p + n + 7 + l1 + l2, key_tokenid(), r.tokenid);
    assert(parse_field(s, p + n + 6 + l1 + l2, key_tokenid()) == Some(
        (r.tokenid, p + n + 7 + l1 + l2 + l3),
    ));
    lemma_skip_ws_determined(s, p + n + 7 + l1 + l2 + l3, p + n + 8 + l1 + l2 + l3);
    assert(parse_record(s, i) == Some((r, p + bl)));
}

/// Rendered record blocks followed by `\n}` parse back to exactly their
/// records, stopping at the closing brace.
pub proof fn lemma_parse_records_exact(s: Seq<u8>, i: int, rs: Seq<DeviceView>)
    requires
        0 <= i,
        valid_records(rs),
        i + render_records(rs).len() as int + 2 <= s.len(),
        s.subrange(i, i + render_records(rs).len() as int + 2) == render_records(rs) + seq![
            NL,
            RBRACE,
        ],
    ensures
        parse_records(s, i) == Some((rs, i + render_records(rs).len() as int + 1)),
    decreases rs.len(),
{
    let rr = render_records(rs);
    let rl = rr.len() as int;
    let w = rr + seq![NL, RBRACE];
    if rs.len() == 0 {
        assert(w[0] == NL && w[1] == RBRACE);
        assert(s[i] == NL) by {
            assert(s.subrange(i, i + rl + 2)[0] == s[i]);
        }
        assert(s[i + 1] == RBRACE) by {
            assert(s.subrange(i, i + rl + 2)[1] == s[i + 1]);
        }
        lemma_skip_ws_determined(s, i, i + 1);
        assert(rs =~= Seq::<DeviceView>::empty());
        assert(parse_records(s, i) == Some((rs, i + 1)));
    } else {
        let r0 = rs[0];
        let b0 = render_record(r0);
        let n0 = b0.len() as int;
        let rest = rs.skip(1);
        let rrest = render_records(rest);
        assert(rr == seq![NL] + b0 + rrest);
        assert(w[0] == NL);
        assert(s[i] == NL) by {
            assert(s.subrange(i, i + rl + 2)[0] == s[i]);
        }
        assert(b0[0] == QUOTE);
        assert(w[1] == QUOTE);
        assert(s[i + 1] == QUOTE) by {
            assert(s.subrange(i, i + rl + 2)[1] == s[i + 1]);
        }
        lemma_skip_ws_determined(s, i, i + 1);
        s.lemma_slice_of_slice(i, i + rl + 2, 1, 1 + n0);
        assert(w.subrange(1, 1 + n0) =~= b0);
        assert(s.subrange(i + 1, i + 1 + n0) == b0);
        lemma_parse_record_exact(s, i, i + 1, r0);
        assert(parse_record(s, i) == Some((r0, i + 1 + n0)));
        let k = i + 1 + n0;
        s.lemma_slice_of_slice(i, i + rl + 2, 1 + n0, rl + 2);
        assert(w.subrange(1 + n0, rl + 2) =~= rrest + seq![NL, RBRACE]);
        assert(s.subrange(k, k + rrest.len() as int + 2) == rrest + seq![NL, RBRACE]);
        assert(forall|m: int| 0 <= m < rest.len() ==> valid_record(#[trigger] rest[m]));
        lemma_parse_records_exact(s, k, rest);
        assert(parse_records(s, k) == Some((rest, k + rrest.len() as int + 1)));
        assert(seq![r0] + rest =~= rs);
        assert(parse_records(s, i) == Some((rs, i + rl + 1)));
    }
}

/// A document whose section body, right after the label and its
/// whitespace, is the canonical rendering of valid records `rs` locates to
/// exactly that body span and those records.
pub proof fn lemma_locate_rendered(s: Seq<u8>, p: int, rs: Seq<DeviceView>)
    requires
        find_label(s, 0) == Some(p),
        valid_records(rs),
        skip_ws(s, p + section_label().len() as int) + render_body(rs).len() as int <= s.len(),
        s.subrange(
            skip_ws(s, p + section_label().len() as int),
            skip_ws(s, p + section_label().len() as int) + render_body(rs).len() as int,
        ) == render_body(rs),
    ensures
        locate_section(s) == Some(
            (
                skip_ws(s, p + section_label().len() as int),
                skip_ws(s, p + section_label().len() as int) + render_body(rs).len() as int,
                rs,
            ),
        ),
{
    lemma_find_label_props(s, 0);
    lemma_skip_ws_props(s, p + section_label().len() as int);
    let b = skip_ws(s, p + section_label().len() as int);
    let body = render_body(rs);
    let bl = body.len() as int;
    let rr = render_records(rs);
    let rl = rr.len() as int;
    assert(bl == rl + 3);
    assert(body[0] == LBRACE);
    assert(s[b] == LBRACE) by {
        assert(s.subrange(b, b + bl)[0] == s[b]);
    }
    s.lemma_slice_of_slice(b, b + bl, 1, bl);
    assert(body.subrange(1, bl) =~= rr + seq![NL, RBRACE]);
    assert(s.subrange(b + 1, b + 1 + rl + 2) == rr + seq![NL, RBRACE]);
    lemma_parse_records_exact(s, b + 1, rs);
    assert(parse_records(s, b + 1) == Some((rs, b + rl + 2)));
    assert(body[rl + 2] == RBRACE);
    assert(s[b + rl + 2] == RBRACE) by {
        assert(s.subrange(b, b + bl)[rl + 2] == s[b + rl + 2]);
    }
    assert(locate_section(s) == Some((b, b + bl, rs)));
}

// ---------------------------------------------------------------------------
// Stability: the scan is unaffected by changes at or after the body.
// ---------------------------------------------------------------------------
/// The first label occurrence carries over to any document that agrees with
/// `s` on a prefix that covers it.
pub proof fn lemma_find_label_agree(s: Seq<u8>, t: Seq<u8>, c: int, i: int, p: int)
    requires
        0 <= i,
        find_label(s, i) == Some(p),
        p + section_label().len() <= c,
        c <= s.len(),
        c <= t.len(),
        s.subrange(0, c) == t.subrange(0, c),
    ensures
        find_label(t, i) == Some(p),
    decreases p - i,
{
    lemma_find_label_props(s, i);
    let ll = section_label().len() as int;
    s.lemma_slice_of_slice(0, c, i, i + ll);
    t.lemma_slice_of_slice(0, c, i, i + ll);
    assert(s.subrange(i, i + ll) == t.subrange(i, i + ll));
    if i < p {
        lemma_find_label_agree(s, t, c, i + 1, p);
    }
}

/// A whitespace run carries over to any document that agrees with `s` up to
/// its stop, provided the stop byte is again non-whitespace.
pub proof fn lemma_skip_ws_agree(s: Seq<u8>, t: Seq<u8>, i: int, b: int)
    requires
        0 <= i <= s.len(),
        skip_ws(s, i) == b,
        b <= t.len(),
        s.subrange(0, b) == t.subrange(0, b),
        b == t.len() || !is_ws(t[b]),
    ensures
        skip_ws(t, i) == b,
{
    lemma_skip_ws_props(s, i);
    assert forall|k: int| i <= k < b implies is_ws(t[k]) by {
        assert(t.subrange(0, b)[k] == t[k]);
        assert(s.subrange(0, b)[k] == s[k]);
    };
    lemma_skip_ws_determined(t, i, b);
}

/// A record sequence with the same members as a valid one is valid.
pub proof fn lemma_permutation_valid(rs: Seq<DeviceView>, rs2: Seq<DeviceView>)
    requires
        valid_records(rs),
        rs2.to_multiset() == rs.to_multiset(),
    ensures
        valid_records(rs2),
{
    assert forall|i: int| 0 <= i < rs2.len() implies valid_record(rs2[i]) by {
        rs2.to_multiset_ensures();
        rs.to_multiset_ensures();
        assert(rs2.contains(rs2[i]));
        assert(rs2.to_multiset().count(rs2[i]) > 0);
        assert(rs.to_multiset().count(rs2[i]) > 0);
        assert(rs.contains(rs2[i]));
        let j = choose|j: int| 0 <= j < rs.len() && rs[j] == rs2[i];
        assert(valid_record(rs[j]));
    };
}

// ---------------------------------------------------------------------------
// The round-trip laws.
// ---------------------------------------------------------------------------
/// Re-encoding a document with the very records its section decodes to
/// reproduces it byte for byte, whenever the section body is in canonical
/// rendered form (as it is for any document this crate's patcher wrote).
pub proof fn lemma_encode_after_decode(s: Seq<u8>, b: int, e: int, rs: Seq<DeviceView>)
    requires
        locate_section(s) == Some((b, e, rs)),
        s.subrange(b, e) == render_body(rs),
    ensures
        patch_document(s, rs) == Some(s),
{
    lemma_locate_section_valid(s);
    assert(s.subrange(0, b) + render_body(rs) + s.subrange(e, s.len() as int) =~= s);
}

/// Patching a locatable document with any valid record sequence succeeds;
/// the result keeps every byte outside the old section body, holds the
/// canonical rendering of the new records as its section body, decodes back
/// to exactly those records, and re-encodes to itself byte for byte.
pub proof fn lemma_patch_then_parse(
    s: Seq<u8>,
    b: int,
    e: int,
    rs: Seq<DeviceView>,
    rs2: Seq<DeviceView>,
)
    requires
        locate_section(s) == Some((b, e, rs)),
        valid_records(rs2),
    ensures
        patch_document(s, rs2) == Some(
            s.subrange(0, b) + render_body(rs2) + s.subrange(e, s.len() as int),
        ),
        locate_section(s.subrange(0, b) + render_body(rs2) + s.subrange(e, s.len() as int))
            == Some((b, b + render_body(rs2).len() as int, rs2)),
        section_records(s.subrange(0, b) + render_body(rs2) + s.subrange(e, s.len() as int))
            == Some(rs2),
        patch_document(
            s.subrange(0, b) + render_body(rs2) + s.subrange(e, s.len() as int),
            rs2,
        ) == Some(s.subrange(0, b) + render_body(rs2) + s.subrange(e, s.len() as int)),
{
    lemma_locate_section_valid(s);
    let t = s.subrange(0, b) + render_body(rs2) + s.subrange(e, s.len() as int);
    let body2 = render_body(rs2);
    let bl2 = body2.len() as int;
    match find_label(s, 0) {
        Some(p) => {
            lemma_find_label_props(s, 0);
            let lab_end = p + section_label().len() as int;
            lemma_skip_ws_props(s, lab_end);
            assert(b == skip_ws(s, lab_end));
            assert(t.subrange(0, b) =~= s.subrange(0, b));
            lemma_find_label_agree(s, t, b, 0, p);
            assert(body2[0] == LBRACE);
            assert(t[b] == LBRACE);
            lemma_skip_ws_agree(s, t, lab_end, b);
            assert(t.subrange(b, b + bl2) =~= body2);
            lemma_locate_rendered(t, p, rs2);
            assert(locate_section(t) == Some((b, b + bl2, rs2)));
            lemma_encode_after_decode(t, b, b + bl2, rs2);
        },
        None => {
            assert(false);
        },
    }
}

/// Reordering only: patching with any permutation of the decoded records
/// succeeds, leaves all text outside the section body unchanged (the result
/// is literally the old prefix, the freshly rendered body, and the old
/// suffix), and the patched document's section decodes to exactly that
/// permutation, so every record's fields survive verbatim and only the
/// block order changes.
pub proof fn lemma_order_only_mutation(
    s: Seq<u8>,
    b: int,
    e: int,
    rs: Seq<DeviceView>,
    rs2: Seq<DeviceView>,
)
    requires
        locate_section(s) == Some((b, e, rs)),
        rs2.to_multiset() == rs.to_multiset(),
    ensures
        patch_document(s, rs2) == Some(
            s.subrange(0, b) + render_body(rs2) + s.subrange(e, s.len() as int),
        ),
        section_records(s.subrange(0, b) + render_body(rs2) + s.subrange(e, s.len() as int))
            == Some(rs2),
        section_records(
            s.subrange(0, b) + render_body(rs2) + s.subrange(e, s.len() as int),
        ).unwrap().to_multiset() == rs.to_multiset(),
{
    lemma_locate_section_valid(s);
    lemma_permutation_valid(rs, rs2);
    lemma_patch_then_parse(s, b, e, rs, rs2);
}

/// A located section with zero records re-encodes to the empty-but-valid
/// canonical body `{\n}`, and that body decodes back to zero records.
pub proof fn lemma_empty_section_round_trip(s: Seq<u8>, b: int, e: int)
    requires
        locate_section(s) == Some((b, e, Seq::<DeviceView>::empty())),
    ensures
        render_body(Seq::<DeviceView>::empty()) == seq![LBRACE, NL, RBRACE],
        patch_document(s, Seq::<DeviceView>::empty()) == Some(
            s.subrange(0, b) + render_body(Seq::<DeviceView>::empty()) + s.subrange(
                e,
                s.len() as int,
            ),
        ),
        section_records(
            s.subrange(0, b) + render_body(Seq::<DeviceView>::empty()) + s.subrange(
                e,
                s.len() as int,
            ),
        ) == Some(Seq::<DeviceView>::empty()),
{
    assert(render_body(Seq::<DeviceView>::empty()) =~= seq![LBRACE, NL, RBRACE]);
    lemma_patch_then_parse(s, b, e, Seq::empty(), Seq::empty());
}

} // verus!
