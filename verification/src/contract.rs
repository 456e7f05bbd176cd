//! Contract identity: `namespace.name/version+revision`.
use vstd::prelude::*;
use crate::errors::CoreError;
use crate::text::{
    ascii_digit, ascii_lower, chars_of, char_debug, debug_char, debug_chars, decimal,
    decimal_string, find_first, find_last, first_index, has_no, is_ascii_digit, is_ascii_lower,
    last_index, lemma_decimal_digits, lemma_decimal_parses, lemma_first_index_concat,
    lemma_last_index_concat, parse_u32, parse_u32_spec, push_char, push_chars, push_str,
    slice_chars, split_chars, split_on, str_debug, string_from_chars,
};
use crate::version::{
    lemma_split_append, lemma_split_without_sep, lemma_version_text_parses, version_parse_spec,
    SchemaVersion,
};

verus! {

/// Identity of a data contract: `namespace.name/version+revision`, e.g.
/// `elci.uni.snapshot/1.4.0+2`. Independent of Rust module paths, crate
/// names and type names.
#[derive(Debug, Clone, PartialEq, Eq, Hash)]
pub struct Contract {
    namespace: String,
    name: String,
    version: SchemaVersion,
    revision: u32,
}

/// A character allowed after the first one of a dotted-lowercase segment.
pub open spec fn is_segment_char(c: char) -> bool {
    is_ascii_lower(c) || is_ascii_digit(c) || c == '_'
}

/// The first position at or after `i` holding a character not allowed in a
/// segment (`s.len()` if there is none).
pub open spec fn first_bad_from(s: Seq<char>, i: int) -> int
    decreases s.len() - i,
{
    if i >= s.len() {
        s.len() as int
    } else if !is_segment_char(s[i]) {
        i
    } else {
        first_bad_from(s, i + 1)
    }
}

/// Why `seg` is not a dotted-lowercase identifier segment (a lowercase ASCII
/// letter, then lowercase ASCII letters, digits or underscores), if it is not.
pub open spec fn segment_reason(seg: Seq<char>) -> Option<Seq<char>> {
    if seg.len() == 0 {
        Some("segment must not be empty"@)
    } else if !is_ascii_lower(seg[0]) {
        Some(
            "segment "@ + str_debug(seg) + " must start with a lowercase ASCII letter, found "@
                + char_debug(seg[0]),
        )
    } else if first_bad_from(seg, 1) < seg.len() {
        Some(
            "segment "@ + str_debug(seg) + " contains disallowed character "@ + char_debug(
                seg[first_bad_from(seg, 1)],
            ),
        )
    } else {
        None
    }
}

/// The reason of the first failing segment among `segs[i..]`.
pub open spec fn segments_reason(segs: Seq<Seq<char>>, i: int) -> Option<Seq<char>>
    decreases segs.len() - i,
{
    if i >= segs.len() || i < 0 {
        None
    } else if segment_reason(segs[i]) is Some {
        segment_reason(segs[i])
    } else {
        segments_reason(segs, i + 1)
    }
}

/// Why `Contract::new(namespace, name, ..)` is refused, if it is.
pub open spec fn contract_new_reason(ns: Seq<char>, name: Seq<char>) -> Option<Seq<char>> {
    if ns.len() == 0 {
        Some("namespace must not be empty"@)
    } else {
        segments_reason(split_on(ns, '.').push(name), 0)
    }
}

/// The text `namespace.name` that errors of `Contract::new` name as input.
pub open spec fn whole_name(ns: Seq<char>, name: Seq<char>) -> Seq<char> {
    ns + seq!['.'] + name
}

/// The parts of a parsed contract identifier.
pub struct ContractParts {
    pub namespace: Seq<char>,
    pub name: Seq<char>,
    pub version: (u32, u32, u32),
    pub revision: u32,
}

/// What `Contract::parse` gives for `s`: the parts, or the error's input
/// and reason.
pub open spec fn contract_parse_spec(s: Seq<char>) -> Result<ContractParts, (Seq<char>, Seq<char>)> {
    match first_index(s, '/') {
        None => Err((s, "missing '/version' segment"@)),
        Some(p) => {
            let path = s.take(p);
            let vp = s.skip(p + 1);
            match last_index(path, '.') {
                None => Err((s, "namespace.name must contain at least two dotted segments"@)),
                Some(q) => {
                    let ns = path.take(q);
                    let name = path.skip(q + 1);
                    let vs = match first_index(vp, '+') {
                        Some(t) => vp.take(t),
                        None => vp,
                    };
                    match version_parse_spec(vs) {
                        Err(why) => Err(
                            (
                                s,
                                "invalid version "@ + str_debug(vs) + ": "@ + "invalid schema version "@
                                    + str_debug(vs) + ": "@ + why,
                            ),
                        ),
                        Ok(v) => {
                            let rev = match first_index(vp, '+') {
                                Some(t) => parse_u32_spec(vp.skip(t + 1)),
                                None => Some(0u32),
                            };
                            match rev {
                                None => Err(
                                    (
                                        s,
                                        str_debug(vp.skip(first_index(vp, '+')->0 + 1))
                                            + " is not a valid non-negative revision"@,
                                    ),
                                ),
                                Some(r) => match contract_new_reason(ns, name) {
                                    Some(why) => Err((whole_name(ns, name), why)),
                                    None => Ok(
                                        ContractParts { namespace: ns, name, version: v, revision: r },
                                    ),
                                },
                            }
                        },
                    }
                },
            }
        },
    }
}

/// Checks one segment.
fn validate_segment(seg: &[char]) -> (r: Option<String>)
    ensures
        match segment_reason(seg@) {
            Some(why) => r matches Some(w) && w@ == why,
            None => r is None,
        },
{
    let mut why = String::new();
    if seg.len() == 0 {
        push_str(&mut why, "segment must not be empty");
        return Some(why);
    }
    if !ascii_lower(seg[0]) {
        push_str(&mut why, "segment ");
        let d = debug_chars(seg);
        push_str(&mut why, d.as_str());
        push_str(&mut why, " must start with a lowercase ASCII letter, found ");
        let c0 = seg[0];
        let dc = debug_char(c0);
        push_str(&mut why, dc.as_str());
        proof {
            assert(why@ =~= segment_reason(seg@)->0);
        }
        return Some(why);
    }
    let mut i: usize = 1;
    while i < seg.len()
        invariant
            1 <= i <= seg.len(),
            is_ascii_lower(seg@[0]),
            first_bad_from(seg@, 1) == first_bad_from(seg@, i as int),
        decreases seg.len() - i,
    {
        let c = seg[i];
        if !(ascii_lower(c) || ascii_digit(c) || c == '_') {
            let mut why = String::new();
            push_str(&mut why, "segment ");
            let d = debug_chars(seg);
            push_str(&mut why, d.as_str());
            push_str(&mut why, " contains disallowed character ");
            let dc = debug_char(c);
            push_str(&mut why, dc.as_str());
            proof {
                assert(why@ =~= segment_reason(seg@)->0);
            }
            return Some(why);
        }
        i = i + 1;
    }
    None
}

impl Contract {
    pub closed spec fn namespace_spec(&self) -> Seq<char> {
        self.namespace@
    }

    pub closed spec fn name_spec(&self) -> Seq<char> {
        self.name@
    }

    pub closed spec fn version_spec(&self) -> SchemaVersion {
        self.version
    }

    pub closed spec fn revision_spec(&self) -> u32 {
        self.revision
    }

    /// A well-formed contract: the namespace and the name pass the
    /// dotted-lowercase identifier grammar.
    pub open spec fn wf(&self) -> bool {
        contract_new_reason(self.namespace_spec(), self.name_spec()) is None
    }

    /// The text `namespace.name/version+revision`.
    pub open spec fn text(&self) -> Seq<char> {
        self.namespace_spec() + seq!['.'] + self.name_spec() + seq!['/'] + self.version_spec().text()
            + seq!['+'] + decimal(self.revision_spec() as nat)
    }

    /// Constructs a `Contract`, checking `namespace` (each dotted segment)
    /// and `name` against the dotted-lowercase identifier grammar.
    pub fn new(namespace: &str, name: &str, version: SchemaVersion, revision: u32) -> (r: Result<
        Contract,
        CoreError,
    >)
        ensures
            match contract_new_reason(namespace@, name@) {
                None => r matches Ok(c) && c.namespace_spec() == namespace@ && c.name_spec() == name@
                    && c.version_spec() == version && c.revision_spec() == revision && c.wf(),
                Some(why) => r matches Err(CoreError::InvalidContract { input, reason }) && input@
                    == whole_name(namespace@, name@) && reason@ == why,
            },
    {
        let ns = chars_of(namespace);
        let nm = chars_of(name);
        Self::from_chars(ns.as_slice(), nm.as_slice(), version, revision)
    }

    fn from_chars(ns: &[char], nm: &[char], version: SchemaVersion, revision: u32) -> (r: Result<
        Contract,
        CoreError,
    >)
        ensures
            match contract_new_reason(ns@, nm@) {
                None => r matches Ok(c) && c.namespace_spec() == ns@ && c.name_spec() == nm@
                    && c.version_spec() == version && c.revision_spec() == revision && c.wf(),
                Some(why) => r matches Err(CoreError::InvalidContract { input, reason }) && input@
                    == whole_name(ns@, nm@) && reason@ == why,
            },
    {
        if ns.len() == 0 {
            let mut why = String::new();
            push_str(&mut why, "namespace must not be empty");
            return Err(CoreError::InvalidContract { input: Self::whole(ns, nm), reason: why });
        }
        let segs = split_chars(ns, '.');
        let ghost all = split_on(ns@, '.').push(nm@);
        let mut i: usize = 0;
        while i < segs.len()
            invariant
                segs@.len() == split_on(ns@, '.').len(),
                forall|j: int| 0 <= j < segs@.len() ==> #[trigger] segs@[j]@ == split_on(ns@, '.')[j],
                all == split_on(ns@, '.').push(nm@),
                ns@.len() > 0,
                i <= segs.len(),
                segments_reason(all, 0) == segments_reason(all, i as int),
            decreases segs.len() - i,
        {
            match validate_segment(segs[i].as_slice()) {
                Some(why) => {
                    assert(all[i as int] == segs@[i as int]@);
                    return Err(CoreError::InvalidContract { input: Self::whole(ns, nm), reason: why });
                },
                None => {
                    assert(all[i as int] == segs@[i as int]@);
                },
            }
            i = i + 1;
        }
        assert(all[segs@.len() as int] == nm@);
        match validate_segment(nm) {
            Some(why) => Err(CoreError::InvalidContract { input: Self::whole(ns, nm), reason: why }),
            None => {
                assert(segments_reason(all, all.len() as int) is None);
                Ok(
                    Contract {
                        namespace: string_from_chars(ns),
                        name: string_from_chars(nm),
                        version,
                        revision,
                    },
                )
            },
        }
    }

    fn whole(ns: &[char], nm: &[char]) -> (r: String)
        ensures
            r@ == whole_name(ns@, nm@),
    {
        let mut w = string_from_chars(ns);
        push_char(&mut w, '.');
        push_chars(&mut w, nm);
        w
    }

    /// Parses a contract identifier, e.g. `"elci.uni.snapshot/1.4.0+2"`. The
    /// `+revision` suffix is optional and defaults to `0`.
    pub fn parse(s: &str) -> (r: Result<Contract, CoreError>)
        ensures
            match contract_parse_spec(s@) {
                Ok(p) => r matches Ok(c) && c.namespace_spec() == p.namespace && c.name_spec()
                    == p.name && c.version_spec().major_spec() == p.version.0
                    && c.version_spec().minor_spec() == p.version.1
                    && c.version_spec().patch_spec() == p.version.2 && c.revision_spec()
                    == p.revision && c.wf(),
                Err((input, why)) => r matches Err(CoreError::InvalidContract { input: i, reason })
                    && i@ == input && reason@ == why,
            },
    {
        let cs = chars_of(s);
        let cs = cs.as_slice();
        let slash = find_first(cs, '/');
        proof {
            crate::text::lemma_first_index_found(cs@, '/');
        }
        let p = match slash {
            None => {
                let mut why = String::new();
                push_str(&mut why, "missing '/version' segment");
                return Err(CoreError::InvalidContract { input: string_from_chars(cs), reason: why });
            },
            Some(p) => p,
        };
        let path = slice_chars(cs, 0, p);
        let vp = slice_chars(cs, p + 1, cs.len());
        proof {
            assert(path@ =~= cs@.take(p as int));
            assert(vp@ =~= cs@.skip(p as int + 1));
        }
        proof {
            crate::text::lemma_last_index_found(path@, '.');
        }
        let q = match find_last(path.as_slice(), '.') {
            None => {
                let mut why = String::new();
                push_str(&mut why, "namespace.name must contain at least two dotted segments");
                return Err(CoreError::InvalidContract { input: string_from_chars(cs), reason: why });
            },
            Some(q) => q,
        };
        let ns = slice_chars(path.as_slice(), 0, q);
        let nm = slice_chars(path.as_slice(), q + 1, path.len());
        proof {
            assert(ns@ =~= path@.take(q as int));
            assert(nm@ =~= path@.skip(q as int + 1));
        }
        let plus = find_first(vp.as_slice(), '+');
        proof {
            crate::text::lemma_first_index_found(vp@, '+');
        }
        let vs = match plus {
            Some(t) => slice_chars(vp.as_slice(), 0, t),
            None => slice_chars(vp.as_slice(), 0, vp.len()),
        };
        proof {
            match plus {
                Some(t) => assert(vs@ =~= vp@.take(t as int)),
                None => assert(vs@ =~= vp@),
            }
        }
        let version = match SchemaVersion::parse_chars(vs.as_slice()) {
            Ok(v) => v,
            Err(e) => {
                let mut why = String::new();
                push_str(&mut why, "invalid version ");
                let d = debug_chars(vs.as_slice());
                push_str(&mut why, d.as_str());
                push_str(&mut why, ": ");
                push_str(&mut why, "invalid schema version ");
                push_str(&mut why, d.as_str());
                push_str(&mut why, ": ");
                push_str(&mut why, e.as_str());
                proof {
                    assert(why@ =~= contract_parse_spec(s@)->Err_0.1);
                }
                return Err(CoreError::InvalidContract { input: string_from_chars(cs), reason: why });
            },
        };
        let revision = match plus {
            None => 0u32,
            Some(t) => {
                let rs = slice_chars(vp.as_slice(), t + 1, vp.len());
                proof {
                    assert(rs@ =~= vp@.skip(t as int + 1));
                }
                match parse_u32(rs.as_slice()) {
                    Some(r) => r,
                    None => {
                        let mut why = debug_chars(rs.as_slice());
                        push_str(&mut why, " is not a valid non-negative revision");
                        return Err(CoreError::InvalidContract { input: string_from_chars(cs), reason: why });
                    },
                }
            },
        };
        Self::from_chars(ns.as_slice(), nm.as_slice(), version, revision)
    }

    pub fn namespace(&self) -> (r: &str)
        ensures
            r@ == self.namespace_spec(),
    {
        self.namespace.as_str()
    }

    pub fn name(&self) -> (r: &str)
        ensures
            r@ == self.name_spec(),
    {
        self.name.as_str()
    }

    pub fn version(&self) -> (r: SchemaVersion)
        ensures
            r == self.version_spec(),
    {
        self.version
    }

    pub fn revision(&self) -> (r: u32)
        ensures
            r == self.revision_spec(),
    {
        self.revision
    }

    /// The text `namespace.name/version+revision`.
    pub fn to_string(&self) -> (r: String)
        ensures
            r@ == self.text(),
    {
        let mut r = String::new();
        push_str(&mut r, self.namespace.as_str());
        push_char(&mut r, '.');
        push_str(&mut r, self.name.as_str());
        push_char(&mut r, '/');
        let v = self.version.to_string();
        push_str(&mut r, v.as_str());
        push_char(&mut r, '+');
        let d = decimal_string(self.revision as u64);
        push_str(&mut r, d.as_str());
        proof {
            assert(r@ =~= self.text());
        }
        r
    }
}

} // verus!

verus! {

/// Every character of `s` other than `sep` lies in one of its pieces.
pub proof fn lemma_split_covers(s: Seq<char>, sep: char, i: int)
    requires
        0 <= i < s.len(),
        s[i] != sep,
    ensures
        exists|j: int, k: int|
            0 <= j < split_on(s, sep).len() && 0 <= k < split_on(s, sep)[j].len()
                && #[trigger] split_on(s, sep)[j][k] == s[i],
    decreases s.len(),
{
    crate::text::lemma_split_nonempty(s, sep);
    let rest = split_on(s.drop_last(), sep);
    crate::text::lemma_split_nonempty(s.drop_last(), sep);
    if i == s.len() - 1 {
        let last = rest.last().push(s.last());
        assert(split_on(s, sep)[rest.len() - 1] == last);
        assert(split_on(s, sep)[rest.len() - 1][last.len() - 1] == s[i]);
    } else {
        lemma_split_covers(s.drop_last(), sep, i);
        let (j, k) = choose|j: int, k: int|
            0 <= j < rest.len() && 0 <= k < rest[j].len() && #[trigger] rest[j][k] == s.drop_last()[i];
        if s.last() == sep {
            assert(split_on(s, sep)[j] == rest[j]);
            assert(split_on(s, sep)[j][k] == s[i]);
        } else {
            if j == rest.len() - 1 {
                assert(split_on(s, sep)[j] == rest[j].push(s.last()));
                assert(split_on(s, sep)[j][k] == s[i]);
            } else {
                assert(split_on(s, sep)[j] == rest[j]);
                assert(split_on(s, sep)[j][k] == s[i]);
            }
        }
    }
}

/// No failing segment from `i` on means every segment from `i` on passes.
pub proof fn lemma_segments_all_valid(segs: Seq<Seq<char>>, i: int, j: int)
    requires
        0 <= i <= j < segs.len(),
        segments_reason(segs, i) is None,
    ensures
        segment_reason(segs[j]) is None,
    decreases j - i,
{
    if i < j {
        lemma_segments_all_valid(segs, i + 1, j);
    }
}

pub proof fn lemma_first_bad_from(s: Seq<char>, i: int, k: int)
    requires
        0 <= i <= k < s.len(),
        first_bad_from(s, i) >= s.len(),
    ensures
        is_segment_char(s[k]),
    decreases k - i,
{
    if i < k {
        lemma_first_bad_from(s, i + 1, k);
    }
}

/// A valid segment holds only segment characters.
pub proof fn lemma_valid_segment_chars(seg: Seq<char>, k: int)
    requires
        segment_reason(seg) is None,
        0 <= k < seg.len(),
    ensures
        is_segment_char(seg[k]),
{
    if k > 0 {
        lemma_first_bad_from(seg, 1, k);
    }
}

/// The namespace and name of a well-formed contract hold only segment
/// characters, apart from the namespace's dots.
pub proof fn lemma_wf_chars(c: Contract)
    requires
        c.wf(),
    ensures
        forall|k: int| 0 <= k < c.namespace_spec().len() ==> is_segment_char(#[trigger] c.namespace_spec()[k])
            || c.namespace_spec()[k] == '.',
        forall|k: int| 0 <= k < c.name_spec().len() ==> is_segment_char(#[trigger] c.name_spec()[k]),
{
    let ns = c.namespace_spec();
    let all = split_on(ns, '.').push(c.name_spec());
    crate::text::lemma_split_nonempty(ns, '.');
    assert forall|k: int| 0 <= k < ns.len() implies is_segment_char(#[trigger] ns[k]) || ns[k] == '.' by {
        if ns[k] != '.' {
            lemma_split_covers(ns, '.', k);
            let (j, m) = choose|j: int, m: int|
                0 <= j < split_on(ns, '.').len() && 0 <= m < split_on(ns, '.')[j].len()
                    && #[trigger] split_on(ns, '.')[j][m] == ns[k];
            assert(all[j] == split_on(ns, '.')[j]);
            lemma_segments_all_valid(all, 0, j);
            lemma_valid_segment_chars(all[j], m);
        }
    }
    assert forall|k: int| 0 <= k < c.name_spec().len() implies is_segment_char(#[trigger] c.name_spec()[k]) by {
        assert(all[all.len() - 1] == c.name_spec());
        lemma_segments_all_valid(all, 0, all.len() - 1);
        lemma_valid_segment_chars(c.name_spec(), k);
    }
}

/// A well-formed contract printed with `to_string` parses back to itself.
pub proof fn law_contract_round_trip(c: Contract)
    requires
        c.wf(),
    ensures
        contract_parse_spec(c.text()) matches Ok(p) && p.namespace == c.namespace_spec() && p.name
            == c.name_spec() && p.version == (
            c.version_spec().major_spec(),
            c.version_spec().minor_spec(),
            c.version_spec().patch_spec(),
        ) && p.revision == c.revision_spec(),
{
    lemma_wf_chars(c);
    let ns = c.namespace_spec();
    let name = c.name_spec();
    let v = c.version_spec();
    let vt = v.text();
    let dr = decimal(c.revision_spec() as nat);
    let a = ns + seq!['.'] + name;
    let b = vt + seq!['+'] + dr;
    assert(c.text() =~= a + seq!['/'] + b);
    assert(has_no(a, '/')) by {
        assert forall|i: int| 0 <= i < a.len() implies #[trigger] a[i] != '/' by {
            if i < ns.len() {
                assert(a[i] == ns[i]);
            } else if i > ns.len() {
                assert(a[i] == name[i - ns.len() - 1]);
            }
        }
    }
    lemma_first_index_concat(a, b, '/');
    assert((a + seq!['/'] + b).take(a.len() as int) =~= a);
    assert((a + seq!['/'] + b).skip(a.len() as int + 1) =~= b);
    assert(has_no(name, '.'));
    lemma_last_index_concat(ns, name, '.');
    assert(a.take(ns.len() as int) =~= ns);
    assert(a.skip(ns.len() as int + 1) =~= name);
    assert(has_no(vt, '+')) by {
        crate::version::lemma_decimal_has_no(v.major_spec() as nat, '+');
        crate::version::lemma_decimal_has_no(v.minor_spec() as nat, '+');
        crate::version::lemma_decimal_has_no(v.patch_spec() as nat, '+');
        let d1 = decimal(v.major_spec() as nat);
        let d2 = decimal(v.minor_spec() as nat);
        let d3 = decimal(v.patch_spec() as nat);
        assert forall|i: int| 0 <= i < vt.len() implies #[trigger] vt[i] != '+' by {
            if i < d1.len() {
                assert(vt[i] == d1[i]);
            } else if i == d1.len() {
            } else if i < d1.len() + 1 + d2.len() {
                assert(vt[i] == d2[i - d1.len() - 1]);
            } else if i == d1.len() + 1 + d2.len() {
            } else {
                assert(vt[i] == d3[i - d1.len() - d2.len() - 2]);
            }
        }
    }
    lemma_first_index_concat(vt, dr, '+');
    assert(b.take(vt.len() as int) =~= vt);
    assert(b.skip(vt.len() as int + 1) =~= dr);
    lemma_version_text_parses(v);
    lemma_decimal_parses(c.revision_spec());
}

/// A dotted-lowercase identifier segment: a lowercase ASCII letter, then
/// only lowercase ASCII letters, digits or underscores.
pub open spec fn is_segment(seg: Seq<char>) -> bool {
    &&& seg.len() > 0
    &&& is_ascii_lower(seg[0])
    &&& forall|j: int| 1 <= j < seg.len() ==> is_segment_char(#[trigger] seg[j])
}

proof fn lemma_first_bad_from_none(s: Seq<char>, i: int)
    requires
        0 <= i,
    ensures
        first_bad_from(s, i) >= s.len() <==> forall|j: int| i <= j < s.len() ==> is_segment_char(#[trigger] s[j]),
    decreases s.len() - i,
{
    if i < s.len() {
        lemma_first_bad_from_none(s, i + 1);
        if is_segment_char(s[i]) {
            assert forall|j: int| i <= j < s.len() && (forall|k: int| i + 1 <= k < s.len() ==> is_segment_char(#[trigger] s[k])) implies is_segment_char(
                #[trigger] s[j],
            ) by {
                if j > i {
                }
            }
        }
    }
}

proof fn lemma_segments_reason(segs: Seq<Seq<char>>, i: int)
    requires
        0 <= i,
    ensures
        segments_reason(segs, i) is None <==> forall|j: int| i <= j < segs.len() ==> is_segment(#[trigger] segs[j]),
    decreases segs.len() - i,
{
    if i < segs.len() {
        lemma_segments_reason(segs, i + 1);
        lemma_first_bad_from_none(segs[i], 1);
        if segment_reason(segs[i]) is None {
            assert forall|j: int| i <= j < segs.len() && (forall|k: int| i + 1 <= k < segs.len() ==> is_segment(#[trigger] segs[k])) implies is_segment(
                #[trigger] segs[j],
            ) by {
                if j > i {
                }
            }
        }
    }
}

/// Law: `Contract::new(namespace, name, ..)` succeeds exactly when the
/// namespace is not empty, every dot-separated segment of it is a
/// dotted-lowercase segment, and so is the name.
pub proof fn law_contract_grammar(ns: Seq<char>, name: Seq<char>)
    ensures
        contract_new_reason(ns, name) is None <==> {
            &&& ns.len() > 0
            &&& forall|j: int| 0 <= j < split_on(ns, '.').len() ==> is_segment(#[trigger] split_on(ns, '.')[j])
            &&& is_segment(name)
        },
{
    let segs = split_on(ns, '.').push(name);
    lemma_segments_reason(segs, 0);
    if ns.len() > 0 {
        let parts = split_on(ns, '.');
        assert(segs[parts.len() as int] == name);
        assert forall|j: int| 0 <= j < parts.len() implies #[trigger] segs[j] == parts[j] by {}
        if forall|j: int| 0 <= j < segs.len() ==> is_segment(#[trigger] segs[j]) {
            assert(is_segment(segs[parts.len() as int]));
            assert forall|j: int| 0 <= j < parts.len() implies is_segment(#[trigger] parts[j]) by {
                assert(segs[j] == parts[j]);
                assert(is_segment(segs[j]));
            }
        }
        if (forall|j: int| 0 <= j < parts.len() ==> is_segment(#[trigger] parts[j])) && is_segment(name) {
            assert forall|j: int| 0 <= j < segs.len() implies is_segment(#[trigger] segs[j]) by {
                if j < parts.len() {
                    assert(segs[j] == parts[j]);
                }
            }
        }
    }
}

} // verus!
