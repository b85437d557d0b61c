//! Names that people write: adapters, addresses, and domains that must go
//! through the encrypted route.
use crate::direct;
use crate::direct::{Path, PathView, Uplink};
use vstd::prelude::*;
use vstd::string::*;

verus! {

pub const MAX_DOMAIN: usize = 253;

pub const MAX_LABEL: usize = 63;

#[derive(Clone, Copy, Debug, PartialEq, Eq, Structural)]
pub enum NameError {
    PathForm,
    MeteredFlag,
    Address,
    Interface,
    PathAddress,
    Domain,
}

impl NameError {
    pub open spec fn text(self) -> Seq<char> {
        match self {
            NameError::PathForm => "path must be name=IPv4,metered"@,
            NameError::MeteredFlag => "path metered flag must be true or false"@,
            NameError::Address => "invalid IPv4 address syntax"@,
            NameError::Interface => "invalid physical interface name"@,
            NameError::PathAddress => "invalid path IPv4 address"@,
            NameError::Domain => "invalid secure domain suffix"@,
        }
    }

    pub fn message(self) -> (r: &'static str)
        ensures
            r@ == self.text(),
    {
        match self {
            NameError::PathForm => "path must be name=IPv4,metered",
            NameError::MeteredFlag => "path metered flag must be true or false",
            NameError::Address => "invalid IPv4 address syntax",
            NameError::Interface => "invalid physical interface name",
            NameError::PathAddress => "invalid path IPv4 address",
            NameError::Domain => "invalid secure domain suffix",
        }
    }
}

#[verifier::allow_in_spec]
pub fn is_digit(c: char) -> bool
    returns
        '0' <= c && c <= '9',
{
    '0' <= c && c <= '9'
}

#[verifier::allow_in_spec]
pub fn is_word(c: char) -> bool
    returns
        is_digit(c) || ('a' <= c && c <= 'z') || ('A' <= c && c <= 'Z'),
{
    is_digit(c) || ('a' <= c && c <= 'z') || ('A' <= c && c <= 'Z')
}

/// White space, in any script.
#[verifier::allow_in_spec]
pub fn is_space(c: char) -> bool
    returns
        ('\u{9}' <= c && c <= '\u{d}') || c == '\u{20}' || c == '\u{85}' || c == '\u{a0}' || c
            == '\u{1680}' || ('\u{2000}' <= c && c <= '\u{200a}') || c == '\u{2028}' || c
            == '\u{2029}' || c == '\u{202f}' || c == '\u{205f}' || c == '\u{3000}',
{
    ('\u{9}' <= c && c <= '\u{d}') || c == '\u{20}' || c == '\u{85}' || c == '\u{a0}' || c
        == '\u{1680}' || ('\u{2000}' <= c && c <= '\u{200a}') || c == '\u{2028}' || c == '\u{2029}'
        || c == '\u{202f}' || c == '\u{205f}' || c == '\u{3000}'
}

pub open spec fn spec_valid_interface(name: Seq<char>) -> bool {
    0 < name.len() < 16 && forall|i: int| 0 <= i < name.len() ==> is_word(#[trigger] name[i])
}

/// Whether a name may be that of an adapter.
pub fn valid_interface(name: &str) -> (r: bool)
    ensures
        r == spec_valid_interface(name@),
{
    let n: usize = name.unicode_len();
    if n == 0 || n >= 16 {
        return false;
    }
    let mut i: usize = 0;
    while i < n
        invariant
            i <= n,
            n == name@.len(),
            forall|j: int| 0 <= j < i ==> is_word(#[trigger] name@[j]),
        decreases n - i,
    {
        if !is_word(name.get_char(i)) {
            return false;
        }
        i = i + 1;
    }
    true
}

/// First position from `i` on that holds a character, or the end.
pub open spec fn place_of(s: Seq<char>, c: char, i: int) -> int
    decreases s.len() - i,
{
    if i < s.len() && s[i] != c {
        place_of(s, c, i + 1)
    } else {
        i
    }
}

pub proof fn lemma_place_of(s: Seq<char>, c: char, i: int)
    requires
        0 <= i <= s.len(),
    ensures
        i <= place_of(s, c, i) <= s.len(),
        forall|j: int| i <= j < place_of(s, c, i) ==> #[trigger] s[j] != c,
        place_of(s, c, i) < s.len() ==> s[place_of(s, c, i)] == c,
    decreases s.len() - i,
{
    if i < s.len() && s[i] != c {
        lemma_place_of(s, c, i + 1);
    }
}

pub(crate) fn find_char(s: &str, c: char, from: usize) -> (r: usize)
    requires
        from <= s@.len(),
    ensures
        r == place_of(s@, c, from as int),
        from <= r <= s@.len(),
{
    let n: usize = s.unicode_len();
    let mut i: usize = from;
    while i < n && s.get_char(i) != c
        invariant
            from <= i <= n,
            n == s@.len(),
            place_of(s@, c, i as int) == place_of(s@, c, from as int),
        decreases n - i,
    {
        i = i + 1;
    }
    i
}

/// The number that digits write.
pub open spec fn digits_value(s: Seq<char>) -> nat
    decreases s.len(),
{
    if s.len() == 0 {
        0
    } else {
        digits_value(s.drop_last()) * 10 + (s.last() as nat - '0' as nat) as nat
    }
}

/// One to three digits, no needless zero in front, up to 255.
pub open spec fn spec_octet(s: Seq<char>) -> Option<u8> {
    if 1 <= s.len() <= 3 && (forall|i: int| 0 <= i < s.len() ==> is_digit(#[trigger] s[i])) && (
    s.len() == 1 || s[0] != '0') && digits_value(s) <= 255 {
        Some(digits_value(s) as u8)
    } else {
        None
    }
}

fn parse_octet(s: &str, from: usize, to: usize) -> (r: Option<u8>)
    requires
        from <= to <= s@.len(),
    ensures
        r == spec_octet(s@.subrange(from as int, to as int)),
{
    let ghost part: Seq<char> = s@.subrange(from as int, to as int);
    if to - from < 1 || to - from > 3 {
        return None;
    }
    if to - from > 1 && s.get_char(from) == '0' {
        assert(part[0] == '0');
        return None;
    }
    let mut value: u32 = 0;
    let mut i: usize = from;
    assert(s@.subrange(from as int, from as int) =~= Seq::empty());
    while i < to
        invariant
            from <= i <= to <= s@.len(),
            to - from <= 3,
            part == s@.subrange(from as int, to as int),
            value == digits_value(s@.subrange(from as int, i as int)),
            i == from ==> value == 0,
            i == from + 1 ==> value <= 9,
            i == from + 2 ==> value <= 99,
            i == from + 3 ==> value <= 999,
            forall|j: int| 0 <= j < i - from ==> is_digit(#[trigger] part[j]),
        decreases to - i,
    {
        let c: char = s.get_char(i);
        assert(part[i - from] == c);
        if !is_digit(c) {
            return None;
        }
        let ghost longer: Seq<char> = s@.subrange(from as int, i + 1);
        assert(longer.drop_last() =~= s@.subrange(from as int, i as int));
        assert(longer.last() == c);
        value = value * 10 + (c as u32 - '0' as u32);
        i = i + 1;
    }
    if value <= 255 {
        Some(value as u8)
    } else {
        None
    }
}

/// Four octets with dots between them.
pub open spec fn spec_parse_ipv4(s: Seq<char>) -> Option<Seq<u8>> {
    let p: int = place_of(s, '.', 0);
    let q: int = place_of(s, '.', p + 1);
    let r: int = place_of(s, '.', q + 1);
    if p >= s.len() || q >= s.len() || r >= s.len() {
        None
    } else {
        match (
            spec_octet(s.subrange(0, p)),
            spec_octet(s.subrange(p + 1, q)),
            spec_octet(s.subrange(q + 1, r)),
            spec_octet(s.subrange(r + 1, s.len() as int)),
        ) {
            (Some(a), Some(b), Some(c), Some(d)) => Some(seq![a, b, c, d]),
            _ => None,
        }
    }
}

/// Reads an address in dotted form.
pub fn parse_ipv4(s: &str) -> (r: Option<[u8; 4]>)
    ensures
        match (r, spec_parse_ipv4(s@)) {
            (Some(ip), Some(want)) => ip@ == want,
            (None, None) => true,
            _ => false,
        },
{
    let n: usize = s.unicode_len();
    let p: usize = find_char(s, '.', 0);
    if p >= n {
        return None;
    }
    let q: usize = find_char(s, '.', p + 1);
    if q >= n {
        return None;
    }
    let w: usize = find_char(s, '.', q + 1);
    if w >= n {
        return None;
    }
    match (
        parse_octet(s, 0, p),
        parse_octet(s, p + 1, q),
        parse_octet(s, q + 1, w),
        parse_octet(s, w + 1, n),
    ) {
        (Some(a), Some(b), Some(c), Some(d)) => {
            let ip: [u8; 4] = [a, b, c, d];
            assert(ip@ =~= seq![a, b, c, d]);
            Some(ip)
        },
        _ => None,
    }
}

pub open spec fn truth(s: Seq<char>) -> Option<bool> {
    if s == "true"@ || s == "1"@ {
        Some(true)
    } else if s == "false"@ || s == "0"@ {
        Some(false)
    } else {
        None
    }
}

fn same_text(a: &str, b: &str) -> (r: bool)
    ensures
        r == (a@ == b@),
{
    a.to_string() == b.to_string()
}

/// Whether an address may be that of an adapter.
pub open spec fn usable_address(ip: Seq<u8>) -> bool {
    ip[0] != 127 && ip != seq![0u8, 0, 0, 0]
}

/// An uplink, if its name and address are allowed.
pub open spec fn checked_path(name: Seq<char>, ip: Seq<u8>, link: Uplink) -> Result<
    PathView,
    NameError,
> {
    if !spec_valid_interface(name) {
        Err(NameError::Interface)
    } else if !usable_address(ip) {
        Err(NameError::PathAddress)
    } else {
        Ok(PathView { name, address: ip, link })
    }
}

pub fn new_path(name: String, address: [u8; 4], metered: bool, created_ms: u64, incarnation: u64)
    -> (r: Result<Path, NameError>)
    ensures
        match (
            r,
            checked_path(
                name@,
                address@,
                direct::fresh_uplink(metered, created_ms, incarnation),
            ),
        ) {
            (Ok(path), Ok(want)) => path@ == want,
            (Err(error), Err(want)) => error == want,
            _ => false,
        },
{
    if !valid_interface(name.as_str()) {
        return Err(NameError::Interface);
    }
    let unset: bool = address[0] == 0 && address[1] == 0 && address[2] == 0 && address[3] == 0;
    proof {
        if unset {
            assert(address@ =~= seq![0u8, 0, 0, 0]);
        } else {
            assert(address@ != seq![0u8, 0, 0, 0]) by {
                let zero: Seq<u8> = seq![0u8, 0, 0, 0];
                assert(zero[0] == 0 && zero[1] == 0 && zero[2] == 0 && zero[3] == 0);
            }
        }
    }
    if address[0] == 127 || unset {
        return Err(NameError::PathAddress);
    }
    Ok(Path { name, address, link: Uplink::new(metered, created_ms, incarnation) })
}

/// What `name=IPv4,metered` describes. The flag may be left out.
pub open spec fn spec_parse_path(s: Seq<char>, created_ms: u64, incarnation: u64) -> Result<
    PathView,
    NameError,
> {
    let p: int = place_of(s, '=', 0);
    let q: int = place_of(s, ',', p + 1);
    let flag: Option<bool> = if q < s.len() {
        truth(s.skip(q + 1))
    } else {
        Some(false)
    };
    if p >= s.len() {
        Err(NameError::PathForm)
    } else if flag is None {
        Err(NameError::MeteredFlag)
    } else {
        match spec_parse_ipv4(s.subrange(p + 1, q)) {
            None => Err(NameError::Address),
            Some(ip) => checked_path(
                s.take(p),
                ip,
                direct::fresh_uplink(flag->0, created_ms, incarnation),
            ),
        }
    }
}

pub fn parse_path(value: &str, created_ms: u64, incarnation: u64) -> (r: Result<Path, NameError>)
    ensures
        match (r, spec_parse_path(value@, created_ms, incarnation)) {
            (Ok(path), Ok(want)) => path@ == want,
            (Err(error), Err(want)) => error == want,
            _ => false,
        },
{
    let n: usize = value.unicode_len();
    let p: usize = find_char(value, '=', 0);
    if p >= n {
        return Err(NameError::PathForm);
    }
    let q: usize = find_char(value, ',', p + 1);
    let metered: bool = if q < n {
        let flag: &str = value.substring_char(q + 1, n);
        assert(flag@ =~= value@.skip(q + 1));
        if same_text(flag, "true") || same_text(flag, "1") {
            true
        } else if same_text(flag, "false") || same_text(flag, "0") {
            false
        } else {
            return Err(NameError::MeteredFlag);
        }
    } else {
        false
    };
    let address: [u8; 4] = match parse_ipv4(value.substring_char(p + 1, q)) {
        Some(address) => address,
        None => {
            return Err(NameError::Address);
        },
    };
    let name: &str = value.substring_char(0, p);
    assert(name@ =~= value@.take(p as int));
    new_path(name.to_string(), address, metered, created_ms, incarnation)
}

#[verifier::allow_in_spec]
pub fn lower(c: char) -> char
    returns
        (if 'A' <= c && c <= 'Z' {
            (c as u8 + 32) as u8 as char
        } else {
            c
        }),
{
    if 'A' <= c && c <= 'Z' {
        (c as u8 + 32) as char
    } else {
        c
    }
}

/// `str::to_ascii_lowercase`: the letters from A to Z become small, nothing
/// else changes.
#[verifier::external_body]
pub(crate) fn lowercase(s: &str) -> (r: String)
    ensures
        r@ == s@.map_values(|c: char| lower(c)),
{
    s.to_ascii_lowercase()
}

pub open spec fn lowered(s: Seq<char>) -> Seq<char> {
    s.map_values(|c: char| lower(c))
}

/// First position from `i` on that is no white space.
pub open spec fn after_space(s: Seq<char>, i: int) -> int
    decreases s.len() - i,
{
    if i < s.len() && is_space(s[i]) {
        after_space(s, i + 1)
    } else {
        i
    }
}

/// Position up to `n` that white space follows to the end.
pub open spec fn before_space(s: Seq<char>, n: int) -> int
    decreases n,
{
    if n > 0 && is_space(s[n - 1]) {
        before_space(s, n - 1)
    } else {
        n
    }
}

pub open spec fn after_dots(s: Seq<char>, i: int) -> int
    decreases s.len() - i,
{
    if i < s.len() && s[i] == '.' {
        after_dots(s, i + 1)
    } else {
        i
    }
}

pub open spec fn before_dots(s: Seq<char>, n: int) -> int
    decreases n,
{
    if n > 0 && s[n - 1] == '.' {
        before_dots(s, n - 1)
    } else {
        n
    }
}

pub open spec fn without_space(s: Seq<char>) -> Seq<char> {
    let rest: Seq<char> = s.skip(after_space(s, 0));
    rest.take(before_space(rest, rest.len() as int))
}

pub open spec fn without_end_dots(s: Seq<char>) -> Seq<char> {
    s.take(before_dots(s, s.len() as int))
}

pub open spec fn without_dots(s: Seq<char>) -> Seq<char> {
    without_end_dots(s.skip(after_dots(s, 0)))
}

pub open spec fn label_ok(l: Seq<char>) -> bool {
    &&& 0 < l.len() <= MAX_LABEL
    &&& l[0] != '-'
    &&& l.last() != '-'
    &&& forall|i: int| 0 <= i < l.len() ==> is_word(#[trigger] l[i]) || l[i] == '-'
}

/// Whether the labels from `i` on are in order.
pub open spec fn labels_ok(s: Seq<char>, i: int) -> bool
    decreases s.len() - i,
{
    let end: int = place_of(s, '.', i);
    if 0 <= i <= s.len() && i <= end {
        label_ok(s.subrange(i, end)) && (end >= s.len() || labels_ok(s, end + 1))
    } else {
        false
    }
}

pub open spec fn domain_ok(s: Seq<char>) -> bool {
    0 < s.len() <= MAX_DOMAIN && labels_ok(s, 0)
}

/// The usual form of a domain.
pub open spec fn plain_domain(s: Seq<char>) -> Seq<char> {
    lowered(without_dots(without_space(s)))
}

/// The usual forms of the first `n` domains, each once.
pub open spec fn plain_domains(list: Seq<Seq<char>>, n: nat) -> Seq<Seq<char>>
    decreases n,
{
    if n == 0 {
        Seq::empty()
    } else {
        let rest: Seq<Seq<char>> = plain_domains(list, (n - 1) as nat);
        let domain: Seq<char> = plain_domain(list[n - 1]);
        if rest.contains(domain) {
            rest
        } else {
            rest.push(domain)
        }
    }
}

pub open spec fn all_ok(list: Seq<Seq<char>>) -> bool {
    forall|i: int| 0 <= i < list.len() ==> domain_ok(plain_domain(#[trigger] list[i]))
}

pub open spec fn texts(list: Seq<String>) -> Seq<Seq<char>> {
    list.map_values(|s: String| s@)
}

pub fn trim_space(s: &str) -> (r: &str)
    ensures
        r@ == without_space(s@),
{
    let n: usize = s.unicode_len();
    let mut i: usize = 0;
    while i < n && is_space(s.get_char(i))
        invariant
            i <= n,
            n == s@.len(),
            after_space(s@, i as int) == after_space(s@, 0),
        decreases n - i,
    {
        i = i + 1;
    }
    let ghost rest: Seq<char> = s@.skip(i as int);
    let mut k: usize = n;
    while k > i && is_space(s.get_char(k - 1))
        invariant
            i <= k <= n,
            n == s@.len(),
            rest == s@.skip(i as int),
            before_space(rest, k - i) == before_space(rest, rest.len() as int),
        decreases k,
    {
        assert(rest[k - i - 1] == s@[k - 1]);
        k = k - 1;
    }
    proof {
        if k > i {
            assert(rest[k - i - 1] == s@[k - 1]);
        }
        assert(s@.subrange(i as int, k as int) =~= rest.take(k - i));
    }
    s.substring_char(i, k)
}

fn trim_end_dots(s: &str) -> (r: &str)
    ensures
        r@ == without_end_dots(s@),
{
    let n: usize = s.unicode_len();
    let mut k: usize = n;
    while k > 0 && s.get_char(k - 1) == '.'
        invariant
            k <= n,
            n == s@.len(),
            before_dots(s@, k as int) == before_dots(s@, n as int),
        decreases k,
    {
        k = k - 1;
    }
    assert(s@.subrange(0, k as int) =~= s@.take(k as int));
    s.substring_char(0, k)
}

fn trim_dots(s: &str) -> (r: &str)
    ensures
        r@ == without_dots(s@),
{
    let n: usize = s.unicode_len();
    let mut i: usize = 0;
    while i < n && s.get_char(i) == '.'
        invariant
            i <= n,
            n == s@.len(),
            after_dots(s@, i as int) == after_dots(s@, 0),
        decreases n - i,
    {
        i = i + 1;
    }
    let rest: &str = s.substring_char(i, n);
    assert(rest@ =~= s@.skip(i as int));
    trim_end_dots(rest)
}

fn check_label(s: &str, from: usize, to: usize) -> (r: bool)
    requires
        from <= to <= s@.len(),
    ensures
        r == label_ok(s@.subrange(from as int, to as int)),
{
    let ghost l: Seq<char> = s@.subrange(from as int, to as int);
    if to == from || to - from > MAX_LABEL {
        return false;
    }
    assert(l[0] == s@[from as int] && l.last() == s@[to - 1]);
    if s.get_char(from) == '-' || s.get_char(to - 1) == '-' {
        return false;
    }
    let mut i: usize = from;
    while i < to
        invariant
            from <= i <= to <= s@.len(),
            l == s@.subrange(from as int, to as int),
            forall|j: int| 0 <= j < i - from ==> is_word(#[trigger] l[j]) || l[j] == '-',
        decreases to - i,
    {
        let c: char = s.get_char(i);
        assert(l[i - from] == c);
        if !is_word(c) && c != '-' {
            return false;
        }
        i = i + 1;
    }
    true
}

fn check_domain(s: &str) -> (r: bool)
    ensures
        r == domain_ok(s@),
{
    let n: usize = s.unicode_len();
    if n == 0 || n > MAX_DOMAIN {
        return false;
    }
    let mut i: usize = 0;
    loop
        invariant
            i <= n,
            n == s@.len(),
            0 < n <= MAX_DOMAIN,
            labels_ok(s@, i as int) == labels_ok(s@, 0),
        decreases n - i,
    {
        let end: usize = find_char(s, '.', i);
        if !check_label(s, i, end) {
            return false;
        }
        if end >= n {
            return true;
        }
        i = end + 1;
    }
}

fn holds_text(list: &Vec<String>, text: &String) -> (r: bool)
    ensures
        r == texts(list@).contains(text@),
{
    let mut i: usize = 0;
    while i < list.len()
        invariant
            i <= list@.len(),
            forall|j: int| 0 <= j < i ==> #[trigger] texts(list@)[j] != text@,
        decreases list@.len() - i,
    {
        if list[i] == *text {
            assert(texts(list@)[i as int] == text@);
            return true;
        }
        i = i + 1;
    }
    false
}

/// Brings domains into their usual form, each once. One that is no domain
/// makes the whole list invalid.
pub fn normalize_domains(domains: &Vec<String>) -> (r: Result<Vec<String>, NameError>)
    ensures
        match r {
            Ok(list) => all_ok(texts(domains@)) && texts(list@) == plain_domains(
                texts(domains@),
                domains@.len(),
            ),
            Err(error) => !all_ok(texts(domains@)) && error == NameError::Domain,
        },
{
    let mut list: Vec<String> = Vec::new();
    let mut i: usize = 0;
    assert(texts(list@) =~= Seq::empty());
    while i < domains.len()
        invariant
            i <= domains@.len(),
            forall|j: int|
                0 <= j < i ==> domain_ok(plain_domain(#[trigger] texts(domains@)[j])),
            texts(list@) == plain_domains(texts(domains@), i as nat),
        decreases domains@.len() - i,
    {
        assert(texts(domains@)[i as int] == domains@[i as int]@);
        let domain: String = lowercase(trim_dots(trim_space(domains[i].as_str())));
        assert(domain@ == plain_domain(texts(domains@)[i as int]));
        if !check_domain(domain.as_str()) {
            assert(!all_ok(texts(domains@)));
            return Err(NameError::Domain);
        }
        if !holds_text(&list, &domain) {
            let ghost before: Seq<Seq<char>> = texts(list@);
            let ghost added: Seq<char> = domain@;
            list.push(domain);
            assert(texts(list@) =~= before.push(added));
        }
        i = i + 1;
    }
    Ok(list)
}

/// Whether a host is a domain, or below it.
pub open spec fn belongs(host: Seq<char>, suffix: Seq<char>) -> bool {
    let at: int = host.len() - suffix.len();
    host == suffix || (at > 0 && host.skip(at) == suffix && host[at - 1] == '.')
}

pub open spec fn spec_must_relay(host: Seq<char>, domains: Seq<Seq<char>>) -> bool {
    exists|i: int|
        0 <= i < domains.len() && belongs(lowered(without_end_dots(host)), #[trigger] domains[i])
}

fn check_belongs(host: &String, suffix: &String) -> (r: bool)
    ensures
        r == belongs(host@, suffix@),
{
    if *host == *suffix {
        return true;
    }
    let n: usize = host.as_str().unicode_len();
    let m: usize = suffix.as_str().unicode_len();
    if n <= m {
        return false;
    }
    let at: usize = n - m;
    let tail: &str = host.as_str().substring_char(at, n);
    assert(tail@ =~= host@.skip(at as int));
    same_text(tail, suffix.as_str()) && host.as_str().get_char(at - 1) == '.'
}

/// Whether a host must be reached through the encrypted route.
pub fn must_relay(host: &str, domains: &Vec<String>) -> (r: bool)
    ensures
        r == spec_must_relay(host@, texts(domains@)),
{
    let plain: String = lowercase(trim_end_dots(host));
    let mut i: usize = 0;
    while i < domains.len()
        invariant
            i <= domains@.len(),
            plain@ == lowered(without_end_dots(host@)),
            forall|j: int| 0 <= j < i ==> !belongs(plain@, #[trigger] texts(domains@)[j]),
        decreases domains@.len() - i,
    {
        assert(texts(domains@)[i as int] == domains@[i as int]@);
        if check_belongs(&plain, &domains[i]) {
            assert(belongs(plain@, texts(domains@)[i as int]));
            return true;
        }
        i = i + 1;
    }
    false
}

/// A listed domain and everything below it is relayed, whatever the case of
/// its letters and with or without a final dot.
pub proof fn listed_domain_is_relayed(domains: Seq<Seq<char>>, i: int, host: Seq<char>)
    requires
        0 <= i < domains.len(),
        ({
            let plain: Seq<char> = lowered(without_end_dots(host));
            plain == domains[i] || (exists|below: Seq<char>|
                plain == #[trigger] (below + seq!['.'] + domains[i]))
        }),
    ensures
        spec_must_relay(host, domains),
{
    let plain: Seq<char> = lowered(without_end_dots(host));
    if plain != domains[i] {
        let below: Seq<char> = choose|below: Seq<char>|
            plain == #[trigger] (below + seq!['.'] + domains[i]);
        let at: int = plain.len() - domains[i].len();
        assert(plain.skip(at) =~= domains[i]);
        assert(plain[at - 1] == '.');
    }
    assert(belongs(plain, domains[i]));
}

/// The result of normalising holds no domain twice, and only domains.
pub proof fn normalized_are_distinct(list: Seq<Seq<char>>, n: nat)
    requires
        n <= list.len(),
        all_ok(list),
    ensures
        plain_domains(list, n).no_duplicates(),
        forall|i: int|
            0 <= i < plain_domains(list, n).len() ==> domain_ok(
                #[trigger] plain_domains(list, n)[i],
            ),
    decreases n,
{
    if n > 0 {
        normalized_are_distinct(list, (n - 1) as nat);
        assert(domain_ok(plain_domain(list[n - 1])));
    }
}

/// Whether a list holds the usual forms of some domains of another, in their
/// order, each taken from the first place where it stands.
pub open spec fn first_forms(once: Seq<Seq<char>>, list: Seq<Seq<char>>, places: Seq<int>) -> bool {
    &&& places.len() == once.len()
    &&& forall|i: int|
        0 <= i < once.len() ==> 0 <= #[trigger] places[i] < list.len() && once[i] == plain_domain(
            list[places[i]],
        )
    &&& forall|i: int, j: int|
        0 <= i < j < once.len() ==> #[trigger] places[i] < #[trigger] places[j]
    &&& forall|i: int, k: int|
        0 <= i < once.len() && 0 <= k < places[i] ==> plain_domain(#[trigger] list[k])
            != #[trigger] once[i]
}

/// Normalising keeps every domain, in its usual form, and the order in which
/// they first stand.
pub proof fn normalized_keep_first_order(list: Seq<Seq<char>>, n: nat)
    requires
        n <= list.len(),
    ensures
        forall|i: int|
            0 <= i < n ==> plain_domains(list, n).contains(plain_domain(#[trigger] list[i])),
        exists|places: Seq<int>|
            #[trigger] first_forms(plain_domains(list, n), list.take(n as int), places),
    decreases n,
{
    if n == 0 {
        assert(first_forms(plain_domains(list, n), list.take(0), Seq::empty()));
    } else {
        let m: nat = (n - 1) as nat;
        normalized_keep_first_order(list, m);
        let before: Seq<Seq<char>> = plain_domains(list, m);
        let after: Seq<Seq<char>> = plain_domains(list, n);
        let had: Seq<int> = choose|places: Seq<int>|
            #[trigger] first_forms(before, list.take(m as int), places);
        let new: Seq<char> = plain_domain(list[m as int]);
        let places: Seq<int> = if before.contains(new) {
            had
        } else {
            had.push(m as int)
        };
        assert forall|i: int| 0 <= i < after.len() implies 0 <= #[trigger] places[i] < n && after[i]
            == plain_domain(list.take(n as int)[places[i]]) by {
            if i < before.len() {
                assert(list.take(m as int)[had[i]] == list.take(n as int)[had[i]]);
            }
        }
        assert forall|i: int, k: int| 0 <= i < after.len() && 0 <= k < places[i] implies
            plain_domain(#[trigger] list.take(n as int)[k]) != #[trigger] after[i] by {
            if i < before.len() {
                assert(list.take(m as int)[k] == list.take(n as int)[k]);
                assert(before[i] == after[i]);
            } else {
                assert(before.contains(plain_domain(list[k])));
            }
        }
        assert(first_forms(after, list.take(n as int), places));
        assert forall|i: int| 0 <= i < n implies after.contains(
            plain_domain(#[trigger] list[i]),
        ) by {
            if i < m {
                let j: int = choose|j: int|
                    0 <= j < before.len() && before[j] == plain_domain(list[i]);
                assert(after[j] == before[j]);
            } else if !before.contains(new) {
                assert(after[before.len() as int] == new);
            }
        }
    }
}

proof fn lemma_spaceless(s: Seq<char>)
    requires
        s.len() > 0 ==> !is_space(s[0]) && !is_space(s.last()),
    ensures
        without_space(s) == s,
{
    assert(s.skip(0) =~= s);
    assert(s.take(s.len() as int) =~= s);
}

proof fn lemma_dotless(s: Seq<char>)
    requires
        s.len() > 0 ==> s[0] != '.' && s.last() != '.',
    ensures
        without_dots(s) == s,
{
    assert(s.skip(0) =~= s);
    assert(s.take(s.len() as int) =~= s);
}

/// Labels that are in order have a letter or a digit at either end.
proof fn lemma_labels_end(s: Seq<char>, i: int)
    requires
        labels_ok(s, i),
        0 <= i <= s.len(),
    ensures
        i < s.len(),
        s[i] != '.',
        is_word(s[i]),
        s.last() != '.',
        is_word(s.last()),
    decreases s.len() - i,
{
    lemma_place_of(s, '.', i);
    let end: int = place_of(s, '.', i);
    let label: Seq<char> = s.subrange(i, end);
    assert(label[0] == s[i]);
    assert(label.last() == s[end - 1]);
    assert(is_word(label[0]) || label[0] == '-');
    assert(is_word(label[label.len() - 1]) || label[label.len() - 1] == '-');
    if end < s.len() {
        lemma_labels_end(s, end + 1);
    }
}

proof fn lemma_lowered_again(s: Seq<char>)
    ensures
        lowered(lowered(s)) == lowered(s),
{
    assert forall|i: int| 0 <= i < s.len() implies lower(lower(#[trigger] s[i])) == lower(s[i]) by {
        let c: char = s[i];
        if 'A' <= c && c <= 'Z' {
            assert(lower(c) as u32 >= 97);
        }
    }
    assert(lowered(lowered(s)) =~= lowered(s));
}

/// The usual form of a domain is its own usual form.
pub proof fn plain_domain_is_stable(s: Seq<char>)
    requires
        domain_ok(plain_domain(s)),
    ensures
        plain_domain(plain_domain(s)) == plain_domain(s),
{
    let plain: Seq<char> = plain_domain(s);
    lemma_labels_end(plain, 0);
    lemma_spaceless(plain);
    lemma_dotless(plain);
    lemma_lowered_again(without_dots(without_space(s)));
}

proof fn lemma_plain_again(list: Seq<Seq<char>>, n: nat, k: nat)
    requires
        n <= list.len(),
        all_ok(list),
        k <= plain_domains(list, n).len(),
    ensures
        plain_domains(plain_domains(list, n), k) == plain_domains(list, n).take(k as int),
    decreases k,
{
    let once: Seq<Seq<char>> = plain_domains(list, n);
    if k == 0 {
        assert(once.take(0) =~= Seq::empty());
    } else {
        lemma_plain_again(list, n, (k - 1) as nat);
        lemma_each_plain(list, n, k - 1);
        normalized_are_distinct(list, n);
        let before: Seq<Seq<char>> = once.take(k - 1);
        assert(!before.contains(once[k - 1])) by {
            if before.contains(once[k - 1]) {
                let j: int = choose|j: int| 0 <= j < before.len() && before[j] == once[k - 1];
                assert(once[j] == once[k - 1]);
            }
        }
        assert(once.take(k as int) =~= before.push(once[k - 1]));
    }
}

proof fn lemma_each_plain(list: Seq<Seq<char>>, n: nat, i: int)
    requires
        n <= list.len(),
        all_ok(list),
        0 <= i < plain_domains(list, n).len(),
    ensures
        plain_domain(plain_domains(list, n)[i]) == plain_domains(list, n)[i],
        domain_ok(plain_domains(list, n)[i]),
    decreases n,
{
    if n > 0 {
        let rest: Seq<Seq<char>> = plain_domains(list, (n - 1) as nat);
        assert(domain_ok(plain_domain(list[n - 1])));
        if i < rest.len() {
            lemma_each_plain(list, (n - 1) as nat, i);
        } else {
            plain_domain_is_stable(list[n - 1]);
        }
    }
}

/// Normalising what is normal changes nothing, and succeeds.
pub proof fn normalizing_again_changes_nothing(list: Seq<Seq<char>>)
    requires
        all_ok(list),
    ensures
        ({
            let once: Seq<Seq<char>> = plain_domains(list, list.len());
            all_ok(once) && plain_domains(once, once.len()) == once
        }),
{
    let once: Seq<Seq<char>> = plain_domains(list, list.len());
    lemma_plain_again(list, list.len(), once.len());
    assert(once.take(once.len() as int) =~= once);
    assert forall|i: int| 0 <= i < once.len() implies domain_ok(plain_domain(#[trigger] once[i])) by {
        lemma_each_plain(list, list.len(), i);
    }
}

} // verus!
