//! The APEv2 tag: an ordered list of key/value items, with keys compared
//! without regard to case and stored upper-cased, kept at the end of a file.

use vstd::prelude::*;
use vstd::string::*;
use vstd::utf8::*;
use vstd::slice::slice_subrange;

verus! {

/// What `str::to_uppercase` returns for a text.
pub uninterp spec fn upper_of(s: Seq<char>) -> Seq<char>;

/// Relies on `str::to_uppercase`: the upper-case form of a text, which
/// depends on the text alone.
#[verifier::external_body]
fn to_upper(s: &str) -> (r: String)
    ensures
        r@ == upper_of(s@),
{
    s.to_uppercase()
}

/// One item of a tag.
#[derive(Debug)]
pub struct ApeItem {
    pub key: String,
    pub value: String,
}

/// An APEv2 tag: its items in order.
#[derive(Debug)]
pub struct ApeTag {
    pub items: Vec<ApeItem>,
}

/// Keys `a` and `b` name the same item.
pub open spec fn same_key(a: Seq<char>, b: Seq<char>) -> bool {
    upper_of(a) == upper_of(b)
}

impl View for ApeTag {
    type V = Seq<(Seq<char>, Seq<char>)>;

    open spec fn view(&self) -> Seq<(Seq<char>, Seq<char>)> {
        Seq::new(self.items@.len(), |i: int| (self.items@[i].key@, self.items@[i].value@))
    }
}

/// Index of the first item of `items` whose key is the same as `key`, if any.
pub open spec fn first_with_key(items: Seq<(Seq<char>, Seq<char>)>, key: Seq<char>) -> Option<int> {
    if exists|i: int| 0 <= i < items.len() && same_key(#[trigger] items[i].0, key) {
        Some(
            choose|i: int|
                0 <= i < items.len() && same_key(#[trigger] items[i].0, key) && forall|j: int|
                    0 <= j < i ==> !same_key(#[trigger] items[j].0, key),
        )
    } else {
        None
    }
}

proof fn lemma_first_with_key(items: Seq<(Seq<char>, Seq<char>)>, key: Seq<char>, i: int)
    requires
        0 <= i <= items.len(),
        forall|j: int| 0 <= j < i ==> !same_key(#[trigger] items[j].0, key),
        i < items.len() ==> same_key(items[i].0, key),
    ensures
        first_with_key(items, key) == (if i < items.len() {
            Some(i)
        } else {
            None::<int>
        }),
{
    if i < items.len() {
        let k = choose|k: int|
            0 <= k < items.len() && same_key(#[trigger] items[k].0, key) && forall|j: int|
                0 <= j < k ==> !same_key(#[trigger] items[j].0, key);
        assert(k == i) by {
            if k < i {
                assert(!same_key(items[k].0, key));
            }
            if k > i {
                assert(!same_key(items[i].0, key));
            }
        }
    }
}

/// The items after `key` is given `value`: the first item with that key
/// gets the value, or an item with the upper-cased key is appended.
pub open spec fn tag_set(items: Seq<(Seq<char>, Seq<char>)>, key: Seq<char>, value: Seq<char>) -> Seq<
    (Seq<char>, Seq<char>),
> {
    match first_with_key(items, key) {
        Some(i) => items.update(i, (items[i].0, value)),
        None => items.push((upper_of(key), value)),
    }
}

/// The value of the first item with key `key`.
pub open spec fn tag_get(items: Seq<(Seq<char>, Seq<char>)>, key: Seq<char>) -> Option<Seq<char>> {
    match first_with_key(items, key) {
        Some(i) => Some(items[i].1),
        None => None,
    }
}

/// The items left after those with key `key` are removed.
pub open spec fn tag_removed(items: Seq<(Seq<char>, Seq<char>)>, key: Seq<char>) -> Seq<
    (Seq<char>, Seq<char>),
> {
    items.filter(|it: (Seq<char>, Seq<char>)| !same_key(it.0, key))
}

pub const TAG_MP3GAIN_UNDO: &'static str = "MP3GAIN_UNDO";

pub const TAG_MP3GAIN_MINMAX: &'static str = "MP3GAIN_MINMAX";

pub open spec fn digit_char(d: int) -> char {
    if d == 0 {
        '0'
    } else if d == 1 {
        '1'
    } else if d == 2 {
        '2'
    } else if d == 3 {
        '3'
    } else if d == 4 {
        '4'
    } else if d == 5 {
        '5'
    } else if d == 6 {
        '6'
    } else if d == 7 {
        '7'
    } else if d == 8 {
        '8'
    } else {
        '9'
    }
}

/// Decimal digits of `n`, without leading zeros.
pub open spec fn decimal_text(n: nat) -> Seq<char>
    decreases n,
{
    if n < 10 {
        seq![digit_char(n as int)]
    } else {
        decimal_text(n / 10).push(digit_char((n % 10) as int))
    }
}

/// `s` with zeros in front up to `width` characters.
pub open spec fn zero_padded(s: Seq<char>, width: nat) -> Seq<char> {
    if s.len() >= width {
        s
    } else {
        Seq::new((width - s.len()) as nat, |i: int| '0') + s
    }
}

/// `v` with its sign, and at least three digits.
pub open spec fn signed_text(v: int) -> Seq<char> {
    seq![if v < 0 { '-' } else { '+' }] + zero_padded(decimal_text((if v < 0 { -v } else { v }) as nat), 3)
}

/// The undo value: the left and right step counts, and `W` when the change
/// wrapped or `N` when it saturated.
pub open spec fn undo_text(left: int, right: int, wrap: bool) -> Seq<char> {
    signed_text(left) + seq![','] + signed_text(right) + seq![','] + seq![if wrap { 'W' } else { 'N' }]
}

/// The min/max value: both numbers in decimal, separated by a comma.
pub open spec fn minmax_text(min: u8, max: u8) -> Seq<char> {
    decimal_text(min as nat) + seq![','] + decimal_text(max as nat)
}

/// Relies on std's integer formatting with `{:+04}`: the sign, then the
/// decimal digits padded with zeros to at least three.
#[verifier::external_body]
fn format_signed(v: i32) -> (r: String)
    ensures
        r@ == signed_text(v as int),
{
    format!("{:+04}", v)
}

/// Relies on std's integer formatting with `{}`: the decimal digits.
#[verifier::external_body]
fn format_decimal(v: u8) -> (r: String)
    ensures
        r@ == decimal_text(v as nat),
{
    format!("{}", v)
}

/// What `str::trim` returns for a text.
pub uninterp spec fn trim_of(s: Seq<char>) -> Seq<char>;

/// Relies on `str::trim`: the text without leading and trailing white
/// space, which depends on the text alone.
#[verifier::external_body]
fn trim(s: &str) -> (r: &str)
    ensures
        r@ == trim_of(s@),
{
    s.trim()
}

pub open spec fn is_digit(c: char) -> bool {
    '0' <= c <= '9'
}

pub open spec fn digits_value(s: Seq<char>) -> int
    decreases s.len(),
{
    if s.len() == 0 {
        0
    } else {
        digits_value(s.drop_last()) * 10 + (s.last() as int - '0' as int)
    }
}

/// The `i32` that a decimal text denotes: an optional `+` or `-`, then one
/// or more digits, with the value in range.
pub open spec fn i32_of(s: Seq<char>) -> Option<i32> {
    let neg = s.len() > 0 && s[0] == '-';
    let body = if s.len() > 0 && (s[0] == '-' || s[0] == '+') {
        s.drop_first()
    } else {
        s
    };
    let v = if neg {
        -digits_value(body)
    } else {
        digits_value(body)
    };
    if body.len() == 0 || !(forall|i: int| 0 <= i < body.len() ==> is_digit(#[trigger] body[i])) {
        None
    } else if i32::MIN <= v <= i32::MAX {
        Some(v as i32)
    } else {
        None
    }
}

/// Relies on `i32::from_str`: an optional sign and decimal digits, refused
/// when anything else is there or the value is out of range.
#[verifier::external_body]
fn parse_i32(s: &str) -> (r: Option<i32>)
    ensures
        r == i32_of(s@),
{
    s.parse::<i32>().ok()
}

/// Index of the first comma at or after `i`, or the length.
pub open spec fn comma_from(s: Seq<char>, i: int) -> int
    decreases s.len() - i,
{
    if i < 0 || i >= s.len() {
        s.len() as int
    } else if s[i] == ',' {
        i
    } else {
        comma_from(s, i + 1)
    }
}

/// The text before the first comma.
pub open spec fn first_field(s: Seq<char>) -> Seq<char> {
    s.take(comma_from(s, 0))
}

proof fn lemma_comma_from_bounds(s: Seq<char>, i: int)
    requires
        0 <= i <= s.len(),
    ensures
        i <= comma_from(s, i) <= s.len(),
    decreases s.len() - i,
{
    if i < s.len() && s[i] != ',' {
        lemma_comma_from_bounds(s, i + 1);
    }
}

fn first_field_of(s: &str) -> (r: &str)
    ensures
        r@ == first_field(s@),
{
    let n = s.unicode_len();
    let mut i: usize = 0;
    while i < n && s.get_char(i) != ','
        invariant
            n == s@.len(),
            i <= n,
            comma_from(s@, i as int) == comma_from(s@, 0),
        decreases n - i,
    {
        i = i + 1;
    }
    s.substring_char(0, i)
}

/// The undo step count that `value` holds: its first field as a number.
pub open spec fn undo_steps_of(value: Seq<char>) -> Option<i32> {
    i32_of(trim_of(first_field(value)))
}

impl ApeTag {
    /// An empty tag.
    pub fn new() -> (r: ApeTag)
        ensures
            r@ == Seq::<(Seq<char>, Seq<char>)>::empty(),
    {
        ApeTag { items: Vec::new() }
    }

    /// Index of the first item whose key is the same as `key`.
    fn find(&self, key: &str) -> (r: Option<usize>)
        ensures
            r matches Some(i) ==> i < self@.len() && first_with_key(self@, key@) == Some(i as int),
            r is None ==> first_with_key(self@, key@) is None,
    {
        let key_upper = to_upper(key);
        let mut i: usize = 0;
        while i < self.items.len()
            invariant
                i <= self.items@.len(),
                key_upper@ == upper_of(key@),
                forall|j: int| 0 <= j < i ==> !same_key(#[trigger] self@[j].0, key@),
            decreases self.items.len() - i,
        {
            let item_upper = to_upper(self.items[i].key.as_str());
            if item_upper == key_upper {
                proof {
                    lemma_first_with_key(self@, key@, i as int);
                }
                return Some(i);
            }
            i = i + 1;
        }
        proof {
            lemma_first_with_key(self@, key@, i as int);
        }
        None
    }

    /// The value of the first item whose key is the same as `key`.
    pub fn get(&self, key: &str) -> (r: Option<&str>)
        ensures
            r matches Some(v) ==> tag_get(self@, key@) == Some(v@),
            r is None ==> tag_get(self@, key@) is None,
    {
        match self.find(key) {
            Some(i) => Some(self.items[i].value.as_str()),
            None => None,
        }
    }

    /// Gives the first item whose key is the same as `key` the value `value`,
    /// keeping its key; without such an item, appends one with the key
    /// upper-cased.
    pub fn set(&mut self, key: &str, value: &str)
        ensures
            final(self)@ == tag_set(old(self)@, key@, value@),
    {
        match self.find(key) {
            Some(i) => {
                let ghost before = self@;
                let k = self.items[i].key.clone();
                self.items.set(i, ApeItem { key: k, value: value.to_owned() });
                assert(self@ =~= before.update(i as int, (before[i as int].0, value@)));
            },
            None => {
                let ghost before = self@;
                self.items.push(ApeItem { key: to_upper(key), value: value.to_owned() });
                assert(self@ =~= before.push((upper_of(key@), value@)));
            },
        }
    }

    /// Removes every item whose key is the same as `key`.
    pub fn remove(&mut self, key: &str)
        ensures
            final(self)@ == tag_removed(old(self)@, key@),
    {
        let key_upper = to_upper(key);
        let ghost before = self@;
        let ghost keep = |it: (Seq<char>, Seq<char>)| !same_key(it.0, key@);
        let mut kept: Vec<ApeItem> = Vec::new();
        let mut i: usize = 0;
        while i < self.items.len()
            invariant
                i <= self.items@.len(),
                self@ == before,
                key_upper@ == upper_of(key@),
                keep == |it: (Seq<char>, Seq<char>)| !same_key(it.0, key@),
                (ApeTag { items: kept })@ == before.take(i as int).filter(keep),
            decreases self.items.len() - i,
        {
            let item_upper = to_upper(self.items[i].key.as_str());
            let ghost old_kept = (ApeTag { items: kept })@;
            proof {
                assert(before.take(i + 1) =~= before.take(i as int).push(before[i as int]));
                before.take(i as int).lemma_filter_push(before[i as int], keep);
            }
            if item_upper != key_upper {
                kept.push(
                    ApeItem {
                        key: self.items[i].key.clone(),
                        value: self.items[i].value.clone(),
                    },
                );
                assert((ApeTag { items: kept })@ =~= old_kept.push(before[i as int]));
            } else {
                assert((ApeTag { items: kept })@ =~= old_kept);
            }
            i = i + 1;
        }
        assert(before.take(i as int) =~= before);
        self.items = kept;
    }

    /// The undo step count, read from the first field of the undo value.
    pub fn get_undo_gain(&self) -> (r: Option<i32>)
        ensures
            r == (match tag_get(self@, TAG_MP3GAIN_UNDO@) {
                Some(v) => undo_steps_of(v),
                None => None,
            }),
    {
        match self.get(TAG_MP3GAIN_UNDO) {
            Some(v) => {
                let field = first_field_of(v);
                parse_i32(trim(field))
            },
            None => None,
        }
    }

    /// Stores the undo value for the given step counts.
    pub fn set_undo_gain(&mut self, left_gain: i32, right_gain: i32, wrap: bool)
        ensures
            final(self)@ == tag_set(
                old(self)@,
                TAG_MP3GAIN_UNDO@,
                undo_text(left_gain as int, right_gain as int, wrap),
            ),
    {
        let flag = if wrap {
            "W"
        } else {
            "N"
        };
        proof {
            reveal_strlit("W");
            reveal_strlit("N");
            reveal_strlit(",");
        }
        let value = format_signed(left_gain).concat(",").concat(format_signed(right_gain).as_str()).concat(
            ",",
        ).concat(flag);
        assert(value@ =~= undo_text(left_gain as int, right_gain as int, wrap));
        self.set(TAG_MP3GAIN_UNDO, value.as_str());
    }

    /// Stores the smallest and largest field values from before any change.
    pub fn set_minmax(&mut self, min: u8, max: u8)
        ensures
            final(self)@ == tag_set(old(self)@, TAG_MP3GAIN_MINMAX@, minmax_text(min, max)),
    {
        proof {
            reveal_strlit(",");
        }
        let value = format_decimal(min).concat(",").concat(format_decimal(max).as_str());
        assert(value@ =~= minmax_text(min, max));
        self.set(TAG_MP3GAIN_MINMAX, value.as_str());
    }

    /// Whether the tag has no item.
    pub fn is_empty(&self) -> (r: bool)
        ensures
            r == (self@.len() == 0),
    {
        self.items.len() == 0
    }
}

/// `APETAGEX`, the first eight bytes of a tag header or footer.
pub open spec fn preamble() -> Seq<u8> {
    seq![0x41u8, 0x50, 0x45, 0x54, 0x41, 0x47, 0x45, 0x58]
}

pub open spec fn u32_le(d: Seq<u8>, at: int) -> int {
    d[at] + d[at + 1] * 0x100 + d[at + 2] * 0x10000 + d[at + 3] * 0x1000000
}

pub open spec fn preamble_at(d: Seq<u8>, at: int) -> bool {
    0 <= at && at + 8 <= d.len() && d.subrange(at, at + 8) == preamble()
}

/// A legacy 128-byte tag starts at `at`: it begins with `TAG`.
pub open spec fn legacy_tag_at(d: Seq<u8>, at: int) -> bool {
    0 <= at && at + 3 <= d.len() && d[at] == 0x54 && d[at + 1] == 0x41 && d[at + 2] == 0x47
}

/// Where the 32-byte tag footer starts: at the very end, or just before a
/// legacy 128-byte tag.
pub open spec fn footer_pos(d: Seq<u8>) -> Option<int> {
    if d.len() < 32 {
        None
    } else if preamble_at(d, d.len() - 32) {
        Some(d.len() - 32)
    } else if d.len() >= 160 && preamble_at(d, d.len() - 160) && legacy_tag_at(d, d.len() - 128) {
        Some(d.len() - 160)
    } else {
        None
    }
}

/// What `String::from_utf8_lossy` returns for bytes that are no valid UTF-8.
pub uninterp spec fn utf8_lossy(b: Seq<u8>) -> Seq<char>;

/// The text that bytes hold: decoded when they are valid UTF-8.
pub open spec fn text_of(b: Seq<u8>) -> Seq<char> {
    if valid_utf8(b) {
        decode_utf8(b)
    } else {
        utf8_lossy(b)
    }
}

/// Relies on `String::from_utf8_lossy`: valid UTF-8 is decoded as it is, and
/// the result depends on the bytes alone.
#[verifier::external_body]
pub(crate) fn text_from_bytes(data: &[u8], start: usize, end: usize) -> (r: String)
    requires
        start <= end <= data@.len(),
    ensures
        valid_utf8(data@.subrange(start as int, end as int)) ==> r@ == decode_utf8(
            data@.subrange(start as int, end as int),
        ),
        !valid_utf8(data@.subrange(start as int, end as int)) ==> r@ == utf8_lossy(
            data@.subrange(start as int, end as int),
        ),
{
    String::from_utf8_lossy(&data[start..end]).into_owned()
}

/// Index of the first zero byte at or after `i` and before `end`, or `end`.
pub open spec fn nul_from(d: Seq<u8>, i: int, end: int) -> int
    decreases end - i,
{
    if i >= end {
        end
    } else if d[i] == 0 {
        i
    } else {
        nul_from(d, i + 1, end)
    }
}

/// The items at `pos`, at most `count` of them, each taken only while it
/// lies before `end`: a 4-byte value size, 4 bytes of flags, a key ended by
/// a zero byte, and the value.
pub open spec fn parse_items(d: Seq<u8>, pos: int, end: int, count: nat) -> Seq<
    (Seq<char>, Seq<char>),
>
    decreases count,
{
    if count == 0 || pos + 8 > end {
        seq![]
    } else {
        let size = u32_le(d, pos);
        let ke = nul_from(d, pos + 8, end);
        if ke >= end || ke + 1 + size > end {
            seq![]
        } else {
            seq![(text_of(d.subrange(pos + 8, ke)), text_of(d.subrange(ke + 1, ke + 1 + size)))]
                + parse_items(d, ke + 1 + size, end, (count - 1) as nat)
        }
    }
}

/// The items of the tag at the end of `d`, if there is a tag.
pub open spec fn ape_tag_of(d: Seq<u8>) -> Option<Seq<(Seq<char>, Seq<char>)>> {
    match footer_pos(d) {
        None => None,
        Some(f) => if u32_le(d, f + 8) != 2000 || f + 32 < u32_le(d, f + 12) {
            None
        } else {
            Some(parse_items(d, f + 32 - u32_le(d, f + 12), f, u32_le(d, f + 16) as nat))
        },
    }
}

/// Reads the little-endian 32-bit number at `at`.
pub fn read_u32_le(data: &[u8], at: usize) -> (r: u32)
    requires
        at + 4 <= data@.len(),
    ensures
        r == u32_le(data@, at as int),
{
    data[at] as u32 + (data[at + 1] as u32) * 0x100 + (data[at + 2] as u32) * 0x10000 + (data[at
        + 3] as u32) * 0x1000000
}

fn preamble_at_exec(data: &[u8], at: usize) -> (r: bool)
    requires
        at + 8 <= data@.len(),
    ensures
        r == preamble_at(data@, at as int),
{
    let r = data[at] == 0x41 && data[at + 1] == 0x50 && data[at + 2] == 0x45 && data[at + 3] == 0x54
        && data[at + 4] == 0x41 && data[at + 5] == 0x47 && data[at + 6] == 0x45 && data[at + 7]
        == 0x58;
    assert(r == (data@.subrange(at as int, at + 8) =~= preamble()));
    r
}

fn legacy_tag_at_exec(data: &[u8], at: usize) -> (r: bool)
    ensures
        r == legacy_tag_at(data@, at as int),
{
    at <= data.len() && data.len() - at >= 3 && data[at] == 0x54 && data[at + 1] == 0x41 && data[at
        + 2] == 0x47
}

/// Finds where the tag footer starts.
pub fn find_ape_footer(data: &[u8]) -> (r: Option<usize>)
    ensures
        r matches Some(f) ==> footer_pos(data@) == Some(f as int) && f + 32 <= data@.len(),
        r is None ==> footer_pos(data@) is None,
{
    let n = data.len();
    if n < 32 {
        return None;
    }
    if preamble_at_exec(data, n - 32) {
        return Some(n - 32);
    }
    if n >= 160 && preamble_at_exec(data, n - 160) && legacy_tag_at_exec(data, n - 128) {
        return Some(n - 160);
    }
    None
}

/// Reads the tag at the end of `data`; `None` when there is no tag, its
/// version is not 2000, or its size points before the start of the data.
pub fn read_ape_tag(data: &[u8]) -> (r: Option<ApeTag>)
    ensures
        ape_tag_of(data@) == (match r {
            Some(t) => Some(t@),
            None => None,
        }),
{
    let n = data.len();
    let footer_start = match find_ape_footer(data) {
        Some(f) => f,
        None => return None,
    };
    if read_u32_le(data, footer_start + 8) != 2000 {
        return None;
    }
    let tag_size = read_u32_le(data, footer_start + 12) as usize;
    let item_count = read_u32_le(data, footer_start + 16) as usize;
    if footer_start + 32 < tag_size {
        return None;
    }
    let items_start = footer_start + 32 - tag_size;
    let ghost all = parse_items(data@, items_start as int, footer_start as int, item_count as nat);
    let mut tag = ApeTag::new();
    let mut pos = items_start;
    let mut left = item_count;
    while left > 0
        invariant
            footer_start + 32 <= data@.len(),
            tag@ + parse_items(data@, pos as int, footer_start as int, left as nat) == all,
        decreases left,
    {
        if pos > footer_start || footer_start - pos < 8 {
            assert(parse_items(data@, pos as int, footer_start as int, left as nat) =~= seq![]);
            left = 0;
        } else {
            let value_size = read_u32_le(data, pos) as usize;
            let key_start = pos + 8;
            let mut k = key_start;
            while k < footer_start && data[k] != 0
                invariant
                    key_start <= k <= footer_start,
                    footer_start + 32 <= data@.len(),
                    nul_from(data@, k as int, footer_start as int) == nul_from(
                        data@,
                        key_start as int,
                        footer_start as int,
                    ),
                decreases footer_start - k,
            {
                k = k + 1;
            }
            if k >= footer_start || value_size > footer_start - (k + 1) {
                assert(parse_items(data@, pos as int, footer_start as int, left as nat) =~= seq![]);
                left = 0;
            } else {
                let key = text_from_bytes(data, key_start, k);
                let value = text_from_bytes(data, k + 1, k + 1 + value_size);
                let ghost before = tag@;
                tag.items.push(ApeItem { key, value });
                assert(tag@ =~= before.push((key@, value@)));
                pos = k + 1 + value_size;
                left = left - 1;
                assert(tag@ + parse_items(data@, pos as int, footer_start as int, left as nat)
                    =~= before + parse_items(
                    data@,
                    (key_start - 8) as int,
                    footer_start as int,
                    (left + 1) as nat,
                ));
            }
        }
    }
    assert(parse_items(data@, pos as int, footer_start as int, left as nat) =~= seq![]);
    assert(tag@ =~= tag@ + parse_items(data@, pos as int, footer_start as int, left as nat));
    Some(tag)
}

pub open spec fn le_bytes(v: int) -> Seq<u8> {
    seq![(v % 0x100) as u8, (v / 0x100 % 0x100) as u8, (v / 0x10000 % 0x100) as u8, (v / 0x1000000 % 0x100) as u8]
}

/// One serialized item: value size, zero flags (UTF-8 text), the key and a
/// zero byte, and the value.
pub open spec fn item_bytes(it: (Seq<char>, Seq<char>)) -> Seq<u8> {
    le_bytes(encode_utf8(it.1).len() as int) + seq![0u8, 0, 0, 0] + encode_utf8(it.0) + seq![0u8]
        + encode_utf8(it.1)
}

pub open spec fn items_bytes(t: Seq<(Seq<char>, Seq<char>)>) -> Seq<u8>
    decreases t.len(),
{
    if t.len() == 0 {
        seq![]
    } else {
        item_bytes(t[0]) + items_bytes(t.drop_first())
    }
}

pub const APE_FLAG_HEADER_PRESENT: u32 = 0x8000_0000;

pub const APE_FLAG_IS_HEADER: u32 = 0x2000_0000;

/// A 32-byte tag header or footer.
pub open spec fn tag_block(size: int, count: int, flags: int) -> Seq<u8> {
    preamble() + le_bytes(2000) + le_bytes(size) + le_bytes(count) + le_bytes(flags) + seq![0u8, 0, 0, 0, 0, 0, 0, 0]
}

/// The bytes of a tag: nothing for an empty tag; else a header, the items
/// and a footer, both with the size of items and footer and the item count,
/// the header marked as one, and both saying a header is present.
pub open spec fn serialized(t: Seq<(Seq<char>, Seq<char>)>) -> Seq<u8> {
    if t.len() == 0 {
        seq![]
    } else {
        let size = items_bytes(t).len() + 32int;
        tag_block(size, t.len() as int, 0xA000_0000) + items_bytes(t) + tag_block(size, t.len() as int, 0x8000_0000)
    }
}

/// The size of a tag fits its 32-bit field.
pub open spec fn fits(t: Seq<(Seq<char>, Seq<char>)>) -> bool {
    items_bytes(t).len() + 32 <= u32::MAX
}

proof fn lemma_items_bytes_add(a: Seq<(Seq<char>, Seq<char>)>, b: Seq<(Seq<char>, Seq<char>)>)
    ensures
        items_bytes(a + b) == items_bytes(a) + items_bytes(b),
    decreases a.len(),
{
    if a.len() == 0 {
        assert(a + b =~= b);
        assert(items_bytes(a) + items_bytes(b) =~= items_bytes(b));
    } else {
        lemma_items_bytes_add(a.drop_first(), b);
        assert((a + b).drop_first() =~= a.drop_first() + b);
        assert(items_bytes(a + b) =~= item_bytes(a[0]) + items_bytes(a.drop_first() + b));
    }
}

proof fn lemma_items_bytes_len(t: Seq<(Seq<char>, Seq<char>)>)
    ensures
        items_bytes(t).len() >= 9 * t.len(),
    decreases t.len(),
{
    if t.len() > 0 {
        lemma_items_bytes_len(t.drop_first());
    }
}

fn push_u32_le(out: &mut Vec<u8>, v: u32)
    ensures
        final(out)@ == old(out)@ + le_bytes(v as int),
{
    out.push((v % 0x100) as u8);
    out.push((v / 0x100 % 0x100) as u8);
    out.push((v / 0x10000 % 0x100) as u8);
    out.push((v / 0x1000000 % 0x100) as u8);
    assert(final(out)@ =~= old(out)@ + le_bytes(v as int));
}

fn push_block(out: &mut Vec<u8>, size: u32, count: u32, flags: u32)
    ensures
        final(out)@ == old(out)@ + tag_block(size as int, count as int, flags as int),
{
    let ghost start = out@;
    out.push(0x41);
    out.push(0x50);
    out.push(0x45);
    out.push(0x54);
    out.push(0x41);
    out.push(0x47);
    out.push(0x45);
    out.push(0x58);
    push_u32_le(out, 2000);
    push_u32_le(out, size);
    push_u32_le(out, count);
    push_u32_le(out, flags);
    let mut i: usize = 0;
    while i < 8
        invariant
            i <= 8,
            out@ == start + preamble() + le_bytes(2000) + le_bytes(size as int) + le_bytes(count as int)
                + le_bytes(flags as int) + Seq::new(i as nat, |j: int| 0u8),
        decreases 8 - i,
    {
        out.push(0);
        i = i + 1;
        assert(out@ =~= start + preamble() + le_bytes(2000) + le_bytes(size as int) + le_bytes(count as int)
                + le_bytes(flags as int) + Seq::new(i as nat, |j: int| 0u8));
    }
    assert(out@ =~= start + tag_block(size as int, count as int, flags as int));
}

/// Serializes a tag; `None` when its size does not fit the 32-bit field.
pub fn serialize_ape_tag(tag: &ApeTag) -> (r: Option<Vec<u8>>)
    ensures
        r matches Some(b) ==> fits(tag@) && b@ == serialized(tag@),
        r is None ==> !fits(tag@),
{
    if tag.is_empty() {
        return Some(Vec::new());
    }
    let ghost t = tag@;
    let mut items_data: Vec<u8> = Vec::new();
    let mut i: usize = 0;
    while i < tag.items.len()
        invariant
            i <= t.len(),
            t == tag@,
            items_data@ == items_bytes(t.take(i as int)),
        decreases t.len() - i,
    {
        let value_bytes = tag.items[i].value.as_str().as_bytes();
        let key_bytes = tag.items[i].key.as_str().as_bytes();
        proof {
            lemma_items_bytes_add(t.take(i as int), seq![t[i as int]]);
            lemma_items_bytes_add(t.take(i + 1), t.skip(i + 1));
            assert(t.take(i as int) + seq![t[i as int]] =~= t.take(i + 1));
            assert(t.take(i + 1) + t.skip(i + 1) =~= t);
            assert(items_bytes(seq![t[i as int]]) =~= item_bytes(t[i as int])) by {
                let one = seq![t[i as int]];
                assert(one.drop_first() =~= Seq::<(Seq<char>, Seq<char>)>::empty());
                assert(items_bytes(one) == item_bytes(one[0]) + items_bytes(one.drop_first()));
                assert(item_bytes(t[i as int]) + Seq::<u8>::empty() =~= item_bytes(t[i as int]));
            }
        }
        if value_bytes.len() > 0xFFFF_FFFF {
            return None;
        }
        let ghost before = items_data@;
        push_u32_le(&mut items_data, value_bytes.len() as u32);
        push_u32_le(&mut items_data, 0);
        items_data.extend_from_slice(key_bytes);
        items_data.push(0);
        items_data.extend_from_slice(value_bytes);
        assert(items_data@ =~= before + item_bytes(t[i as int]));
        i = i + 1;
    }
    assert(t.take(i as int) =~= t);
    if items_data.len() > 0xFFFF_FFFF - 32 {
        return None;
    }
    proof {
        lemma_items_bytes_len(t);
    }
    let tag_size = (items_data.len() + 32) as u32;
    let item_count = tag.items.len() as u32;
    let mut result: Vec<u8> = Vec::new();
    push_block(&mut result, tag_size, item_count, APE_FLAG_HEADER_PRESENT | APE_FLAG_IS_HEADER);
    result.extend_from_slice(items_data.as_slice());
    push_block(&mut result, tag_size, item_count, APE_FLAG_HEADER_PRESENT);
    assert(APE_FLAG_HEADER_PRESENT | APE_FLAG_IS_HEADER == 0xA000_0000u32) by (bit_vector);
    assert(result@ =~= serialized(t));
    Some(result)
}

/// `d` without the tag at its end, a legacy 128-byte tag after it kept. The
/// audio ends where the footer's size, and the header when the footer says
/// there is one, point to.
pub open spec fn without_ape_tag(d: Seq<u8>) -> Seq<u8> {
    match footer_pos(d) {
        None => d,
        Some(f) => {
            let size = u32_le(d, f + 12);
            let header = if u32_le(d, f + 20) >= 0x8000_0000 {
                32int
            } else {
                0
            };
            let audio_end = if f + 32 >= size + header {
                f + 32 - size - header
            } else {
                0
            };
            if d.len() > f + 35 && legacy_tag_at(d, f + 32) {
                d.take(audio_end) + d.skip(f + 32)
            } else {
                d.take(audio_end)
            }
        },
    }
}

fn copy_range(out: &mut Vec<u8>, data: &[u8], start: usize, end: usize)
    requires
        start <= end <= data@.len(),
    ensures
        final(out)@ == old(out)@ + data@.subrange(start as int, end as int),
{
    out.extend_from_slice(slice_subrange(data, start, end));
}

/// Removes the tag at the end of `data`, keeping a legacy tag that follows it.
pub fn remove_ape_tag(data: &[u8]) -> (r: Vec<u8>)
    ensures
        r@ == without_ape_tag(data@),
{
    let n = data.len();
    let mut out: Vec<u8> = Vec::new();
    let footer_start = match find_ape_footer(data) {
        Some(f) => f,
        None => {
            copy_range(&mut out, data, 0, n);
            assert(out@ =~= data@);
            return out;
        },
    };
    let tag_size = read_u32_le(data, footer_start + 12) as usize;
    let flags = read_u32_le(data, footer_start + 20);
    let header_size: usize = if flags >= APE_FLAG_HEADER_PRESENT {
        32
    } else {
        0
    };
    let audio_end = if footer_start + 32 >= tag_size && footer_start + 32 - tag_size >= header_size {
        footer_start + 32 - tag_size - header_size
    } else {
        0
    };
    let id3v1_start = footer_start + 32;
    copy_range(&mut out, data, 0, audio_end);
    if n - id3v1_start > 3 && legacy_tag_at_exec(data, id3v1_start) {
        copy_range(&mut out, data, id3v1_start, n);
        assert(out@ =~= data@.take(audio_end as int) + data@.skip(id3v1_start as int));
    } else {
        assert(out@ =~= data@.take(audio_end as int));
    }
    out
}

/// `d` with its tag replaced by the bytes `tag`, placed before a legacy
/// 128-byte tag at the end.
pub open spec fn with_ape_tag(d: Seq<u8>, tag: Seq<u8>) -> Seq<u8> {
    let a = without_ape_tag(d);
    if a.len() >= 128 && legacy_tag_at(a, a.len() - 128) {
        a.take(a.len() - 128) + tag + a.skip(a.len() - 128)
    } else {
        a + tag
    }
}

/// Writes `tag` at the end of `data` in place of any tag there; `None` when
/// the tag's size does not fit the 32-bit field.
pub fn write_ape_tag(data: &[u8], tag: &ApeTag) -> (r: Option<Vec<u8>>)
    ensures
        r matches Some(b) ==> fits(tag@) && b@ == with_ape_tag(data@, serialized(tag@)),
        r is None ==> !fits(tag@),
{
    let audio = remove_ape_tag(data);
    let tag_data = match serialize_ape_tag(tag) {
        Some(b) => b,
        None => return None,
    };
    let a = audio.as_slice();
    let n = a.len();
    let mut out: Vec<u8> = Vec::new();
    if n >= 128 && legacy_tag_at_exec(a, n - 128) {
        copy_range(&mut out, a, 0, n - 128);
        out.extend_from_slice(tag_data.as_slice());
        copy_range(&mut out, a, n - 128, n);
        assert(out@ =~= a@.take(n - 128) + tag_data@ + a@.skip(n - 128));
    } else {
        copy_range(&mut out, a, 0, n);
        out.extend_from_slice(tag_data.as_slice());
        assert(out@ =~= a@ + tag_data@);
    }
    Some(out)
}

/// Removes the tag at the end of `data`.
pub fn delete_ape_tag(data: &[u8]) -> (r: Vec<u8>)
    ensures
        r@ == without_ape_tag(data@),
{
    remove_ape_tag(data)
}

proof fn lemma_scalar_bytes_nonzero(c: u32)
    requires
        c != 0,
    ensures
        forall|i: int| 0 <= i < encode_scalar(c).len() ==> #[trigger] encode_scalar(c)[i] != 0,
{
    if has_width_1_encoding(c) {
        assert((c & 0x7F) as u8 != 0) by (bit_vector)
            requires
                0 < c <= 0x7F,
        ;
    } else {
        assert(0xC0u8 | ((c >> 6u32) & 0x1F) as u8 != 0) by (bit_vector);
        assert(0xE0u8 | ((c >> 12u32) & 0x0F) as u8 != 0) by (bit_vector);
        assert(0xF0u8 | ((c >> 18u32) & 0x7) as u8 != 0) by (bit_vector);
        assert(0x80u8 | (c & 0x3F) as u8 != 0) by (bit_vector);
        assert(0x80u8 | ((c >> 6u32) & 0x3F) as u8 != 0) by (bit_vector);
        assert(0x80u8 | ((c >> 12u32) & 0x3F) as u8 != 0) by (bit_vector);
    }
}

/// The text holds no NUL character.
pub open spec fn no_nul(s: Seq<char>) -> bool {
    forall|i: int| 0 <= i < s.len() ==> #[trigger] s[i] != '\0'
}

proof fn lemma_encode_no_zero(s: Seq<char>)
    requires
        no_nul(s),
    ensures
        forall|i: int| 0 <= i < encode_utf8(s).len() ==> #[trigger] encode_utf8(s)[i] != 0,
    decreases s.len(),
{
    if s.len() > 0 {
        let rest = s.drop_first();
        assert(no_nul(rest)) by {
            assert forall|i: int| 0 <= i < rest.len() implies #[trigger] rest[i] != '\0' by {
                assert(rest[i] == s[i + 1]);
            }
        }
        lemma_encode_no_zero(rest);
        assert(s[0] != '\0');
        assert(s[0] as u32 != 0) by {
            if s[0] as u32 == 0 {
                char_u32_cast(s[0], 0);
            }
        }
        lemma_scalar_bytes_nonzero(s[0] as u32);
        let a = encode_scalar(s[0] as u32);
        let e = encode_utf8(s);
        assert(e == a + encode_utf8(rest));
        assert forall|i: int| 0 <= i < e.len() implies #[trigger] e[i] != 0 by {
            if i < a.len() {
                assert(e[i] == a[i]);
            } else {
                assert(e[i] == encode_utf8(rest)[i - a.len()]);
            }
        }
    }
}

proof fn lemma_nul_from(d: Seq<u8>, i: int, k: int, end: int)
    requires
        0 <= i <= k < end <= d.len(),
        d[k] == 0,
        forall|j: int| i <= j < k ==> #[trigger] d[j] != 0,
    ensures
        nul_from(d, i, end) == k,
    decreases k - i,
{
    if i < k {
        lemma_nul_from(d, i + 1, k, end);
    }
}

proof fn lemma_u32_le_bytes(d: Seq<u8>, at: int, v: int)
    requires
        0 <= v <= u32::MAX,
        0 <= at,
        at + 4 <= d.len(),
        d.subrange(at, at + 4) == le_bytes(v),
    ensures
        u32_le(d, at) == v,
{
    assert(d[at] == le_bytes(v)[0]);
    assert(d[at + 1] == le_bytes(v)[1]);
    assert(d[at + 2] == le_bytes(v)[2]);
    assert(d[at + 3] == le_bytes(v)[3]);
}

/// Items laid out by `items_bytes` at `pos` and ending at `end` parse back
/// to themselves.
proof fn lemma_parse_items(d: Seq<u8>, pos: int, end: int, t: Seq<(Seq<char>, Seq<char>)>)
    requires
        0 <= pos,
        pos + items_bytes(t).len() == end,
        end <= d.len(),
        d.subrange(pos, end) == items_bytes(t),
        forall|i: int| 0 <= i < t.len() ==> no_nul(#[trigger] t[i].0),
        items_bytes(t).len() <= u32::MAX,
    ensures
        parse_items(d, pos, end, t.len()) == t,
    decreases t.len(),
{
    broadcast use encode_utf8_valid_utf8, encode_utf8_decode_utf8;

    if t.len() > 0 {
        let it = t[0];
        let rest = t.drop_first();
        let kb = encode_utf8(it.0);
        let vb = encode_utf8(it.1);
        let ib = item_bytes(it);
        let all = items_bytes(t);
        assert(all == ib + items_bytes(rest));
        assert(no_nul(it.0));
        lemma_encode_no_zero(it.0);
        let ks = pos + 8;
        let ke = ks + kb.len();
        assert(vb.len() <= u32::MAX);
        assert forall|j: int| 0 <= j < ib.len() implies #[trigger] d[pos + j] == ib[j] by {
            assert(d.subrange(pos, end)[j] == all[j]);
        }
        assert(d.subrange(pos, pos + 4) =~= le_bytes(vb.len() as int)) by {
            assert forall|j: int| 0 <= j < 4 implies d.subrange(pos, pos + 4)[j] == le_bytes(
                vb.len() as int,
            )[j] by {
                assert(d[pos + j] == ib[j]);
            }
        }
        lemma_u32_le_bytes(d, pos, vb.len() as int);
        assert forall|j: int| ks <= j < ke implies #[trigger] d[j] != 0 by {
            assert(d[pos + (j - pos)] == ib[j - pos]);
            assert(ib[j - pos] == kb[j - ks]);
        }
        assert(d[pos + (ke - pos)] == ib[ke - pos]);
        assert(ib[ke - pos] == 0);
        lemma_nul_from(d, ks, ke, end);
        assert(d.subrange(ks, ke) =~= kb) by {
            assert forall|j: int| 0 <= j < kb.len() implies d.subrange(ks, ke)[j] == kb[j] by {
                assert(d[pos + (8 + j)] == ib[8 + j]);
            }
        }
        assert(d.subrange(ke + 1, ke + 1 + vb.len()) =~= vb) by {
            assert forall|j: int| 0 <= j < vb.len() implies d.subrange(ke + 1, ke + 1 + vb.len())[j]
                == vb[j] by {
                assert(d[pos + (9 + kb.len() + j)] == ib[9 + kb.len() + j]);
            }
        }
        let next = ke + 1 + vb.len();
        assert(next == pos + ib.len());
        assert(items_bytes(rest).len() <= u32::MAX);
        assert(d.subrange(next, end) =~= items_bytes(rest)) by {
            assert forall|j: int| 0 <= j < items_bytes(rest).len() implies d.subrange(next, end)[j]
                == items_bytes(rest)[j] by {
                assert(d.subrange(pos, end)[ib.len() + j] == all[ib.len() + j]);
            }
        }
        assert forall|i: int| 0 <= i < rest.len() implies no_nul(#[trigger] rest[i].0) by {
            assert(rest[i] == t[i + 1]);
        }
        lemma_parse_items(d, next, end, rest);
        assert(parse_items(d, pos, end, t.len()) == seq![(it.0, it.1)] + rest);
        assert(seq![(it.0, it.1)] + rest =~= t);
    }
}

/// A tag written after any bytes reads back with the same items in the same
/// order, keys as they are stored, when the tag has an item, its keys hold
/// no NUL, and its size fits.
pub proof fn lemma_ape_round_trip(prefix: Seq<u8>, t: Seq<(Seq<char>, Seq<char>)>)
    requires
        t.len() > 0,
        fits(t),
        forall|i: int| 0 <= i < t.len() ==> no_nul(#[trigger] t[i].0),
    ensures
        ape_tag_of(prefix + serialized(t)) == Some(t),
{
    let ib = items_bytes(t);
    let size = ib.len() + 32int;
    lemma_items_bytes_len(t);
    let head = tag_block(size, t.len() as int, 0xA000_0000);
    let foot = tag_block(size, t.len() as int, 0x8000_0000);
    let d = prefix + serialized(t);
    assert(d =~= prefix + head + ib + foot);
    let f = prefix.len() + 32int + ib.len();
    assert(d.len() == f + 32);
    assert(d.subrange(f, f + 32) =~= foot);
    assert(preamble_at(d, f)) by {
        assert(d.subrange(f, f + 8) =~= preamble());
    }
    assert(footer_pos(d) == Some(f));
    assert(d.subrange(f + 8, f + 12) =~= le_bytes(2000));
    lemma_u32_le_bytes(d, f + 8, 2000);
    assert(d.subrange(f + 12, f + 16) =~= le_bytes(size));
    lemma_u32_le_bytes(d, f + 12, size);
    assert(d.subrange(f + 16, f + 20) =~= le_bytes(t.len() as int));
    lemma_u32_le_bytes(d, f + 16, t.len() as int);
    let pos = prefix.len() + 32int;
    assert(d.subrange(pos, f) =~= ib);
    lemma_parse_items(d, pos, f, t);
}

} // verus!
