//! Explicit MAJOR.MINOR.PATCH schema versions.
use vstd::prelude::*;
use core::cmp::Ordering;
use vstd::std_specs::cmp::PartialOrdSpecImpl;
use crate::errors::CoreError;
use crate::text::{
    chars_of, debug_chars, decimal, decimal_string, lemma_decimal_digits, lemma_decimal_parses,
    parse_u32, parse_u32_spec, push_char, push_str, split_chars, split_on, str_debug,
    string_from_chars, all_digits,
};

verus! {

/// An explicit MAJOR.MINOR.PATCH schema version. There is no in-place
/// mutation: a new version is a new value. Ordering is numeric, by major,
/// then minor, then patch.
#[derive(Debug, Clone, Copy, PartialEq, Eq, Structural, Hash, Ord)]
pub struct SchemaVersion {
    major: u32,
    minor: u32,
    patch: u32,
}

/// How two versions order: by major, then minor, then patch, each
/// compared as a number.
pub open spec fn version_order(a: SchemaVersion, b: SchemaVersion) -> Ordering {
    if a.major_spec() != b.major_spec() {
        if a.major_spec() < b.major_spec() {
            Ordering::Less
        } else {
            Ordering::Greater
        }
    } else if a.minor_spec() != b.minor_spec() {
        if a.minor_spec() < b.minor_spec() {
            Ordering::Less
        } else {
            Ordering::Greater
        }
    } else if a.patch_spec() != b.patch_spec() {
        if a.patch_spec() < b.patch_spec() {
            Ordering::Less
        } else {
            Ordering::Greater
        }
    } else {
        Ordering::Equal
    }
}

impl PartialOrd for SchemaVersion {
    fn partial_cmp(&self, other: &SchemaVersion) -> (r: Option<Ordering>) {
        if self.major != other.major {
            if self.major < other.major {
                Some(Ordering::Less)
            } else {
                Some(Ordering::Greater)
            }
        } else if self.minor != other.minor {
            if self.minor < other.minor {
                Some(Ordering::Less)
            } else {
                Some(Ordering::Greater)
            }
        } else if self.patch != other.patch {
            if self.patch < other.patch {
                Some(Ordering::Less)
            } else {
                Some(Ordering::Greater)
            }
        } else {
            Some(Ordering::Equal)
        }
    }
}

impl PartialOrdSpecImpl for SchemaVersion {
    open spec fn obeys_partial_cmp_spec() -> bool {
        true
    }

    open spec fn partial_cmp_spec(&self, other: &SchemaVersion) -> Option<Ordering> {
        Some(version_order(*self, *other))
    }
}

/// Why a version component fails to parse.
pub open spec fn component_reason(c: Seq<char>) -> Seq<char> {
    str_debug(c) + " is not a valid non-negative integer"@
}

/// What `SchemaVersion::parse` gives for the text `s`: the three
/// components, or the reason it is rejected.
pub open spec fn version_parse_spec(s: Seq<char>) -> Result<(u32, u32, u32), Seq<char>> {
    let parts = split_on(s, '.');
    if parts.len() == 1 {
        Err("missing minor component"@)
    } else if parts.len() == 2 {
        Err("missing patch component"@)
    } else if parts.len() > 3 {
        Err("too many components, expected MAJOR.MINOR.PATCH"@)
    } else if parse_u32_spec(parts[0]) is None {
        Err(component_reason(parts[0]))
    } else if parse_u32_spec(parts[1]) is None {
        Err(component_reason(parts[1]))
    } else if parse_u32_spec(parts[2]) is None {
        Err(component_reason(parts[2]))
    } else {
        Ok((parse_u32_spec(parts[0])->0, parse_u32_spec(parts[1])->0, parse_u32_spec(parts[2])->0))
    }
}

impl SchemaVersion {
    pub closed spec fn major_spec(&self) -> u32 {
        self.major
    }

    pub closed spec fn minor_spec(&self) -> u32 {
        self.minor
    }

    pub closed spec fn patch_spec(&self) -> u32 {
        self.patch
    }

    /// The text `MAJOR.MINOR.PATCH`.
    pub open spec fn text(&self) -> Seq<char> {
        decimal(self.major_spec() as nat) + seq!['.'] + decimal(self.minor_spec() as nat) + seq!['.']
            + decimal(self.patch_spec() as nat)
    }

    pub fn new(major: u32, minor: u32, patch: u32) -> (v: SchemaVersion)
        ensures
            v.major_spec() == major,
            v.minor_spec() == minor,
            v.patch_spec() == patch,
    {
        SchemaVersion { major, minor, patch }
    }

    /// Parses `"MAJOR.MINOR.PATCH"`, e.g. `"1.4.0"`. Each component is read as
    /// std reads a `u32` (an optional `+`, then decimal digits that fit).
    pub fn parse(s: &str) -> (r: Result<SchemaVersion, CoreError>)
        ensures
            match version_parse_spec(s@) {
                Ok((a, b, c)) => r matches Ok(v) && v.major_spec() == a && v.minor_spec() == b
                    && v.patch_spec() == c,
                Err(reason) => r matches Err(CoreError::InvalidVersion { input, reason: why })
                    && input@ == s@ && why@ == reason,
            },
    {
        let cs = chars_of(s);
        match Self::parse_chars(cs.as_slice()) {
            Ok(v) => Ok(v),
            Err(why) => Err(CoreError::InvalidVersion { input: string_from_chars(cs.as_slice()), reason: why }),
        }
    }

    /// `parse`, on characters; the error is the reason text.
    pub fn parse_chars(cs: &[char]) -> (r: Result<SchemaVersion, String>)
        ensures
            match version_parse_spec(cs@) {
                Ok((a, b, c)) => r matches Ok(v) && v.major_spec() == a && v.minor_spec() == b
                    && v.patch_spec() == c,
                Err(reason) => r matches Err(why) && why@ == reason,
            },
    {
        let parts = split_chars(cs, '.');
        proof {
            crate::text::lemma_split_nonempty(cs@, '.');
        }
        let mut why = String::new();
        if parts.len() == 1 {
            push_str(&mut why, "missing minor component");
            return Err(why);
        } else if parts.len() == 2 {
            push_str(&mut why, "missing patch component");
            return Err(why);
        } else if parts.len() > 3 {
            push_str(&mut why, "too many components, expected MAJOR.MINOR.PATCH");
            return Err(why);
        }
        let mut values: [u32; 3] = [0, 0, 0];
        let mut k: usize = 0;
        while k < 3
            invariant
                parts@.len() == 3,
                parts@.len() == split_on(cs@, '.').len(),
                forall|i: int| 0 <= i < parts@.len() ==> #[trigger] parts@[i]@ == split_on(cs@, '.')[i],
                k <= 3,
                forall|i: int| 0 <= i < k ==> parse_u32_spec(#[trigger] parts@[i]@) == Some(values@[i]),
            decreases 3 - k,
        {
            match parse_u32(parts[k].as_slice()) {
                Some(v) => {
                    values[k] = v;
                },
                None => {
                    let mut why = String::new();
                    let d = debug_chars(parts[k].as_slice());
                    push_str(&mut why, d.as_str());
                    push_str(&mut why, " is not a valid non-negative integer");
                    proof {
                        assert(parts@[0]@ == split_on(cs@, '.')[0]);
                        assert(parts@[1]@ == split_on(cs@, '.')[1]);
                        assert(parts@[2]@ == split_on(cs@, '.')[2]);
                        assert(why@ =~= component_reason(parts@[k as int]@));
                    }
                    return Err(why);
                },
            }
            k = k + 1;
        }
        proof {
            assert(parts@[0]@ == split_on(cs@, '.')[0]);
            assert(parts@[1]@ == split_on(cs@, '.')[1]);
            assert(parts@[2]@ == split_on(cs@, '.')[2]);
        }
        Ok(SchemaVersion { major: values[0], minor: values[1], patch: values[2] })
    }

    pub fn major(&self) -> (r: u32)
        ensures
            r == self.major_spec(),
    {
        self.major
    }

    pub fn minor(&self) -> (r: u32)
        ensures
            r == self.minor_spec(),
    {
        self.minor
    }

    pub fn patch(&self) -> (r: u32)
        ensures
            r == self.patch_spec(),
    {
        self.patch
    }

    /// The text `MAJOR.MINOR.PATCH`.
    pub fn to_string(&self) -> (r: String)
        ensures
            r@ == self.text(),
    {
        let mut r = decimal_string(self.major as u64);
        push_char(&mut r, '.');
        let b = decimal_string(self.minor as u64);
        push_str(&mut r, b.as_str());
        push_char(&mut r, '.');
        let c = decimal_string(self.patch as u64);
        push_str(&mut r, c.as_str());
        proof {
            assert(r@ =~= self.text());
        }
        r
    }
}

impl std::str::FromStr for SchemaVersion {
    type Err = CoreError;

    /// `SchemaVersion::parse`.
    fn from_str(s: &str) -> (r: Result<SchemaVersion, CoreError>)
        ensures
            match version_parse_spec(s@) {
                Ok((a, b, c)) => r matches Ok(v) && v.major_spec() == a && v.minor_spec() == b
                    && v.patch_spec() == c,
                Err(reason) => r matches Err(CoreError::InvalidVersion { input, reason: why })
                    && input@ == s@ && why@ == reason,
            },
    {
        SchemaVersion::parse(s)
    }
}

/// A character sequence with no `sep` in it splits into itself alone.
pub proof fn lemma_split_without_sep(s: Seq<char>, sep: char)
    requires
        forall|i: int| 0 <= i < s.len() ==> s[i] != sep,
    ensures
        split_on(s, sep) =~= seq![s],
    decreases s.len(),
{
    if s.len() > 0 {
        lemma_split_without_sep(s.drop_last(), sep);
        assert(s.drop_last().push(s.last()) =~= s);
        let rest = split_on(s.drop_last(), sep);
        assert(rest.last() == s.drop_last());
        assert(split_on(s, sep) == rest.update(0, s.drop_last().push(s.last())));
    } else {
        assert(s =~= Seq::<char>::empty());
    }
}

/// Splitting `a + [sep] + b` where `b` holds no `sep`.
pub proof fn lemma_split_append(a: Seq<char>, b: Seq<char>, sep: char)
    requires
        forall|i: int| 0 <= i < b.len() ==> b[i] != sep,
    ensures
        split_on(a + seq![sep] + b, sep) =~= split_on(a, sep).push(b),
    decreases b.len(),
{
    let x = a + seq![sep] + b;
    if b.len() == 0 {
        assert(x.drop_last() =~= a);
        assert(x.last() == sep);
        assert(b =~= Seq::<char>::empty());
        assert(split_on(x, sep) == split_on(a, sep).push(Seq::<char>::empty()));
    } else {
        lemma_split_append(a, b.drop_last(), sep);
        assert(x.drop_last() =~= a + seq![sep] + b.drop_last());
        assert(b.drop_last().push(b.last()) =~= b);
        assert(x.last() == b.last());
        assert(b[b.len() - 1] != sep);
        let rest = split_on(x.drop_last(), sep);
        assert(rest =~= split_on(a, sep).push(b.drop_last()));
        assert(split_on(x, sep) == rest.update(rest.len() - 1, rest.last().push(x.last())));
    }
}

/// Decimal text never contains `sep` unless `sep` is a digit.
pub proof fn lemma_decimal_has_no(n: nat, sep: char)
    requires
        !('0' <= sep && sep <= '9'),
    ensures
        forall|i: int| 0 <= i < decimal(n).len() ==> decimal(n)[i] != sep,
{
    lemma_decimal_digits(n);
    assert(all_digits(decimal(n)));
}

/// Reading back the text of a version gives the same version.
pub proof fn lemma_version_text_parses(v: SchemaVersion)
    ensures
        version_parse_spec(v.text()) == Ok::<(u32, u32, u32), Seq<char>>(
            (v.major_spec(), v.minor_spec(), v.patch_spec()),
        ),
{
    let a = decimal(v.major as nat);
    let b = decimal(v.minor as nat);
    let c = decimal(v.patch as nat);
    lemma_decimal_has_no(v.major as nat, '.');
    lemma_decimal_has_no(v.minor as nat, '.');
    lemma_decimal_has_no(v.patch as nat, '.');
    lemma_split_without_sep(a, '.');
    lemma_split_append(a, b, '.');
    lemma_split_append(a + seq!['.'] + b, c, '.');
    assert(v.text() =~= (a + seq!['.'] + b) + seq!['.'] + c);
    lemma_decimal_parses(v.major);
    lemma_decimal_parses(v.minor);
    lemma_decimal_parses(v.patch);
}

/// A version printed with `to_string` parses back to itself.
pub proof fn law_version_round_trip(v: SchemaVersion)
    ensures
        version_parse_spec(v.text()) matches Ok((a, b, c)) && a == v.major_spec() && b == v.minor_spec()
            && c == v.patch_spec(),
{
    lemma_version_text_parses(v);
}

} // verus!
