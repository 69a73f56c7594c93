use vstd::prelude::*;
use vstd::std_specs::iter::IteratorSpec;

verus! {

broadcast use {vstd::string::axiom_spec_iter, vstd::string::next_postcondition};

/// Static description of an aircraft, as listed in the device directory.
#[derive(Clone, Debug)]
pub struct Aircraft {
    pub id: String,
    pub call_sign: Option<String>,
    pub registration: Option<String>,
    pub model: Option<String>,
    pub visible: bool,
}

/// The fields of an `Aircraft` as character sequences.
pub struct AircraftView {
    pub id: Seq<char>,
    pub call_sign: Option<Seq<char>>,
    pub registration: Option<Seq<char>>,
    pub model: Option<Seq<char>>,
    pub visible: bool,
}

/// An optional string as an optional character sequence.
pub open spec fn opt_view(o: Option<String>) -> Option<Seq<char>> {
    match o {
        Some(s) => Some(s@),
        None => None,
    }
}

impl View for Aircraft {
    type V = AircraftView;

    open spec fn view(&self) -> AircraftView {
        AircraftView {
            id: self.id@,
            call_sign: opt_view(self.call_sign),
            registration: opt_view(self.registration),
            model: opt_view(self.model),
            visible: self.visible,
        }
    }
}

/// The characters that `char::is_whitespace` accepts (Unicode `White_Space`).
pub open spec fn is_white(c: char) -> bool {
    let u = c as u32;
    (0x9 <= u && u <= 0xD) || u == 0x20 || u == 0x85 || u == 0xA0 || u == 0x1680 || (0x2000 <= u
        && u <= 0x200A) || u == 0x2028 || u == 0x2029 || u == 0x202F || u == 0x205F || u == 0x3000
}

/// `s` without its leading white space.
pub open spec fn trim_start(s: Seq<char>) -> Seq<char>
    decreases s.len(),
{
    if s.len() > 0 && is_white(s[0]) {
        trim_start(s.drop_first())
    } else {
        s
    }
}

/// `s` without its trailing white space.
pub open spec fn trim_end(s: Seq<char>) -> Seq<char>
    decreases s.len(),
{
    if s.len() > 0 && is_white(s.last()) {
        trim_end(s.drop_last())
    } else {
        s
    }
}

/// `s` without leading and trailing white space.
pub open spec fn trim(s: Seq<char>) -> Seq<char> {
    trim_end(trim_start(s))
}

/// The fields of a record line: quote characters are dropped and the rest is
/// split at each comma. There is always at least one field.
pub open spec fn raw_fields(s: Seq<char>) -> Seq<Seq<char>>
    decreases s.len(),
{
    if s.len() == 0 {
        seq![Seq::<char>::empty()]
    } else {
        let f = raw_fields(s.drop_last());
        let c = s.last();
        if c == '\'' {
            f
        } else if c == ',' {
            f.push(Seq::<char>::empty())
        } else {
            f.update(f.len() - 1, f.last().push(c))
        }
    }
}

/// The trimmed field at index `k` of a record line.
pub open spec fn field(s: Seq<char>, k: int) -> Seq<char> {
    trim(raw_fields(s)[k])
}

/// An empty value is absent.
pub open spec fn non_empty(v: Seq<char>) -> Option<Seq<char>> {
    if v.len() == 0 {
        None
    } else {
        Some(v)
    }
}

/// The model type that stands for an unknown model.
pub open spec fn type_unknown() -> Seq<char> {
    seq!['U', 'n', 'k', 'n', 'o', 'w', 'n']
}

/// The marker of an affirmative flag.
pub open spec fn value_yes() -> Seq<char> {
    seq!['Y']
}

/// The aircraft that a device directory line describes, if any. A line that
/// starts with `#` is a comment; a record needs seven fields and an id. The
/// fields are: 1 id, 2 model type, 3 registration, 4 call sign, 5 tracked,
/// 6 identified.
pub open spec fn record_of(s: Seq<char>) -> Option<AircraftView> {
    if s.len() > 0 && s[0] == '#' {
        None
    } else if raw_fields(s).len() < 7 || field(s, 1).len() == 0 {
        None
    } else {
        Some(
            AircraftView {
                id: field(s, 1),
                call_sign: non_empty(field(s, 4)),
                registration: non_empty(field(s, 3)),
                model: if field(s, 2) == type_unknown() {
                    None
                } else {
                    non_empty(field(s, 2))
                },
                visible: field(s, 6) == value_yes() && field(s, 5) == value_yes(),
            },
        )
    }
}

/// A record with fewer than seven fields gives no aircraft; an aircraft that a
/// line gives is visible exactly when both the tracked and the identified
/// markers are `Y`, and carries the trimmed id field.
pub proof fn lemma_record_rules(s: Seq<char>)
    ensures
        raw_fields(s).len() < 7 ==> record_of(s) is None,
        record_of(s) is Some ==> (record_of(s)->0.visible <==> (field(s, 5) == value_yes() && field(
            s,
            6,
        ) == value_yes())),
        record_of(s) is Some ==> record_of(s)->0.id == field(s, 1) && field(s, 1).len() > 0,
        s.len() > 0 && s[0] == '#' ==> record_of(s) is None,
{
}

proof fn lemma_raw_fields_non_empty(s: Seq<char>)
    ensures
        raw_fields(s).len() >= 1,
    decreases s.len(),
{
    if s.len() > 0 {
        lemma_raw_fields_non_empty(s.drop_last());
    }
}

fn is_whitespace(c: char) -> (r: bool)
    ensures
        r == is_white(c),
{
    let u = c as u32;
    (0x9 <= u && u <= 0xD) || u == 0x20 || u == 0x85 || u == 0xA0 || u == 0x1680 || (0x2000 <= u
        && u <= 0x200A) || u == 0x2028 || u == 0x2029 || u == 0x202F || u == 0x205F || u == 0x3000
}

/// Relies on String::push: appends one character.
#[verifier::external_body]
fn push_char(s: &mut String, c: char)
    ensures
        final(s)@ == old(s)@.push(c),
{
    s.push(c)
}

fn chars_of(s: &str) -> (r: Vec<char>)
    ensures
        r@ == s@,
{
    let mut r: Vec<char> = Vec::new();
    for c in it: s.chars()
        invariant
            r@ == it.seq().take(it.index() as int),
            it.seq() == s@,
    {
        proof {
            assert(it.seq().take(it.index() as int + 1) =~= r@.push(c));
        }
        r.push(c);
    }
    proof {
        assert(r@ =~= s@);
    }
    r
}

/// The bounds of `v[lo..hi]` without leading and trailing white space.
fn trim_bounds(v: &Vec<char>, lo: usize, hi: usize) -> (r: (usize, usize))
    requires
        lo <= hi <= v@.len(),
    ensures
        lo <= r.0 <= r.1 <= hi,
        v@.subrange(r.0 as int, r.1 as int) == trim(v@.subrange(lo as int, hi as int)),
{
    let mut a = lo;
    while a < hi && is_whitespace(v[a])
        invariant
            lo <= a <= hi <= v@.len(),
            trim_start(v@.subrange(lo as int, hi as int)) == trim_start(
                v@.subrange(a as int, hi as int),
            ),
        decreases hi - a,
    {
        proof {
            assert(v@.subrange(a as int, hi as int).drop_first() =~= v@.subrange(
                a as int + 1,
                hi as int,
            ));
        }
        a = a + 1;
    }
    let mut b = hi;
    while b > a && is_whitespace(v[b - 1])
        invariant
            lo <= a <= b <= hi <= v@.len(),
            trim_start(v@.subrange(lo as int, hi as int)) == v@.subrange(a as int, hi as int),
            trim(v@.subrange(lo as int, hi as int)) == trim_end(v@.subrange(a as int, b as int)),
        decreases b - a,
    {
        proof {
            assert(v@.subrange(a as int, b as int).drop_last() =~= v@.subrange(
                a as int,
                b as int - 1,
            ));
        }
        b = b - 1;
    }
    (a, b)
}

/// The characters `v[lo..hi]` as a string.
fn string_of(v: &Vec<char>, lo: usize, hi: usize) -> (r: String)
    requires
        lo <= hi <= v@.len(),
    ensures
        r@ == v@.subrange(lo as int, hi as int),
{
    let mut r = String::new();
    let mut i = lo;
    while i < hi
        invariant
            lo <= i <= hi <= v@.len(),
            r@ == v@.subrange(lo as int, i as int),
        decreases hi - i,
    {
        push_char(&mut r, v[i]);
        proof {
            assert(v@.subrange(lo as int, i as int + 1) =~= v@.subrange(lo as int, i as int).push(
                v@[i as int],
            ));
        }
        i = i + 1;
    }
    r
}

/// An optional `Aircraft` by its view.
pub open spec fn opt_aircraft_view(o: Option<Aircraft>) -> Option<AircraftView> {
    match o {
        Some(a) => Some(a@),
        None => None,
    }
}

/// True when `v[lo..hi]` is the word `w`.
fn range_is(v: &Vec<char>, lo: usize, hi: usize, w: &Vec<char>) -> (r: bool)
    requires
        lo <= hi <= v@.len(),
    ensures
        r == (v@.subrange(lo as int, hi as int) == w@),
{
    if hi - lo != w.len() {
        proof {
            assert(v@.subrange(lo as int, hi as int).len() != w@.len());
        }
        return false;
    }
    let mut i: usize = 0;
    while i < w.len()
        invariant
            lo <= hi <= v@.len(),
            hi - lo == w@.len(),
            0 <= i <= w@.len(),
            forall|k: int| 0 <= k < i ==> v@[lo + k] == w@[k],
        decreases w@.len() - i,
    {
        if v[lo + i] != w[i] {
            proof {
                assert(v@.subrange(lo as int, hi as int)[i as int] != w@[i as int]);
            }
            return false;
        }
        i = i + 1;
    }
    proof {
        assert(v@.subrange(lo as int, hi as int) =~= w@);
    }
    true
}

/// Returns the value if it is not empty.
fn get_as_option(value: String) -> (r: Option<String>)
    ensures
        opt_view(r) == non_empty(value@),
{
    if value.as_str().is_empty() {
        None
    } else {
        Some(value)
    }
}

/// The fields of a record line, untrimmed: quote characters are dropped and the
/// rest is split at each comma.
fn split_fields(cs: &Vec<char>) -> (r: Vec<Vec<char>>)
    ensures
        r@.len() == raw_fields(cs@).len(),
        forall|k: int| 0 <= k < r@.len() ==> #[trigger] r@[k]@ == raw_fields(cs@)[k],
{
    let mut done: Vec<Vec<char>> = Vec::new();
    let mut cur: Vec<char> = Vec::new();
    let mut j: usize = 0;
    while j < cs.len()
        invariant
            0 <= j <= cs@.len(),
            done@.len() + 1 == raw_fields(cs@.take(j as int)).len(),
            forall|k: int|
                0 <= k < done@.len() ==> #[trigger] done@[k]@ == raw_fields(cs@.take(j as int))[k],
            cur@ == raw_fields(cs@.take(j as int)).last(),
        decreases cs@.len() - j,
    {
        let ghost prev = raw_fields(cs@.take(j as int));
        proof {
            assert(cs@.take(j as int + 1).drop_last() =~= cs@.take(j as int));
            assert(cs@.take(j as int + 1).last() == cs@[j as int]);
            lemma_raw_fields_non_empty(cs@.take(j as int));
        }
        let c = cs[j];
        if c == '\'' {
        } else if c == ',' {
            done.push(cur);
            cur = Vec::new();
            proof {
                let next = raw_fields(cs@.take(j as int + 1));
                assert(next == prev.push(Seq::<char>::empty()));
                assert forall|k: int| 0 <= k < done@.len() implies #[trigger] done@[k]@ == next[k] by {
                    if k < done@.len() - 1 {
                        assert(next[k] == prev[k]);
                    }
                }
            }
        } else {
            cur.push(c);
            proof {
                let next = raw_fields(cs@.take(j as int + 1));
                assert(next == prev.update(prev.len() - 1, prev.last().push(c)));
                assert forall|k: int| 0 <= k < done@.len() implies #[trigger] done@[k]@ == next[k] by {
                    assert(next[k] == prev[k]);
                }
            }
        }
        j = j + 1;
    }
    proof {
        assert(cs@.take(j as int) =~= cs@);
    }
    let ghost fin = raw_fields(cs@);
    done.push(cur);
    proof {
        assert forall|k: int| 0 <= k < done@.len() implies #[trigger] done@[k]@ == fin[k] by {
        }
    }
    done
}

/// The field `v` without leading and trailing white space, with its bounds.
fn trimmed(v: &Vec<char>) -> (r: (String, usize, usize))
    ensures
        r.0@ == trim(v@),
        r.1 <= r.2 <= v@.len(),
        v@.subrange(r.1 as int, r.2 as int) == trim(v@),
{
    let (a, b) = trim_bounds(v, 0, v.len());
    proof {
        assert(v@.subrange(0, v@.len() as int) =~= v@);
    }
    (string_of(v, a, b), a, b)
}

/// Tries converting a line of the device directory into an `Aircraft`.
pub fn convert(line: &str) -> (r: Option<Aircraft>)
    ensures
        opt_aircraft_view(r) == record_of(line@),
{
    let cs = chars_of(line);
    if cs.len() > 0 && cs[0] == '#' {
        return None;
    }
    let fields = split_fields(&cs);
    if fields.len() < 7 {
        return None;
    }
    let (id, _, _) = trimmed(&fields[1]);
    let (model_type, ma, mb) = trimmed(&fields[2]);
    let (registration, _, _) = trimmed(&fields[3]);
    let (call_sign, _, _) = trimmed(&fields[4]);
    let (_, ta, tb) = trimmed(&fields[5]);
    let (_, ia, ib) = trimmed(&fields[6]);
    let unknown: Vec<char> = vec!['U', 'n', 'k', 'n', 'o', 'w', 'n'];
    let yes: Vec<char> = vec!['Y'];
    proof {
        assert(unknown@ =~= type_unknown());
        assert(yes@ =~= value_yes());
    }
    let model = if range_is(&fields[2], ma, mb, &unknown) {
        None
    } else {
        get_as_option(model_type)
    };
    let visible = range_is(&fields[6], ia, ib, &yes) && range_is(&fields[5], ta, tb, &yes);
    let id = match get_as_option(id) {
        Some(id) => id,
        None => return None,
    };
    Some(
        Aircraft {
            id,
            call_sign: get_as_option(call_sign),
            registration: get_as_option(registration),
            model,
            visible,
        },
    )
}

} // verus!
