use vstd::prelude::*;

verus! {

/// The characters of `s`, in order.
pub fn chars_of(s: &str) -> (r: Vec<char>)
    ensures
        r@ == s@,
{
    let mut v: Vec<char> = Vec::new();
    for c in it: s.chars()
        invariant
            v@ == it.seq().take(it.index() as int),
    {
        v.push(c);
    }
    v
}

/// The characters that `char::is_whitespace` accepts: those of Unicode's
/// `White_Space` property.
pub open spec fn is_ws(c: char) -> bool {
    let u = c as u32;
    (0x9 <= u && u <= 0xd) || u == 0x20 || u == 0x85 || u == 0xa0 || u == 0x1680 || (0x2000 <= u
        && u <= 0x200a) || u == 0x2028 || u == 0x2029 || u == 0x202f || u == 0x205f || u == 0x3000
}

pub fn is_whitespace(c: char) -> (r: bool)
    ensures
        r == is_ws(c),
{
    let u = c as u32;
    (0x9 <= u && u <= 0xd) || u == 0x20 || u == 0x85 || u == 0xa0 || u == 0x1680 || (0x2000 <= u
        && u <= 0x200a) || u == 0x2028 || u == 0x2029 || u == 0x202f || u == 0x205f || u == 0x3000
}

/// The first index at or after `i` that holds no whitespace, or the length.
pub open spec fn skip_ws(s: Seq<char>, i: int) -> int
    decreases s.len() - i,
{
    if i >= s.len() {
        s.len() as int
    } else if is_ws(s[i]) {
        skip_ws(s, i + 1)
    } else {
        i
    }
}

/// The first index at or after `i` that holds whitespace, or the length.
pub open spec fn token_end(s: Seq<char>, i: int) -> int
    decreases s.len() - i,
{
    if i >= s.len() {
        s.len() as int
    } else if is_ws(s[i]) {
        i
    } else {
        token_end(s, i + 1)
    }
}

/// Where the `k`-th whitespace-delimited token of `s` starts (counting from
/// zero); the length of `s` where there are not that many tokens.
pub open spec fn field_start(s: Seq<char>, k: nat) -> int
    decreases k,
{
    if k == 0 {
        skip_ws(s, 0)
    } else {
        skip_ws(s, token_end(s, field_start(s, (k - 1) as nat)))
    }
}

/// The `k`-th whitespace-delimited token of `s`.
pub open spec fn field(s: Seq<char>, k: nat) -> Seq<char> {
    s.subrange(field_start(s, k), token_end(s, field_start(s, k)))
}

/// Whether `s` holds at least `k + 1` tokens.
pub open spec fn has_field(s: Seq<char>, k: nat) -> bool {
    field_start(s, k) < s.len()
}

/// The length of `s[..j]` once trailing whitespace is taken off.
pub open spec fn trim_len(s: Seq<char>, j: int) -> int
    decreases j,
{
    if j <= 0 {
        0
    } else if is_ws(s[j - 1]) {
        trim_len(s, j - 1)
    } else {
        j
    }
}

/// The text from the fifth token to the end of the line, without the
/// whitespace that surrounds it; empty where the line has four tokens.
pub open spec fn rest_text(s: Seq<char>) -> Seq<char> {
    if has_field(s, 4) {
        s.subrange(field_start(s, 4), trim_len(s, s.len() as int))
    } else {
        Seq::empty()
    }
}

proof fn lemma_skip_ws_bounds(s: Seq<char>, i: int)
    requires
        0 <= i <= s.len(),
    ensures
        i <= skip_ws(s, i) <= s.len(),
        skip_ws(s, i) < s.len() ==> !is_ws(s[skip_ws(s, i)]),
    decreases s.len() - i,
{
    if i < s.len() && is_ws(s[i]) {
        lemma_skip_ws_bounds(s, i + 1);
    }
}

fn skip_whitespace(s: &[char], i: usize) -> (r: usize)
    requires
        i <= s@.len(),
    ensures
        r == skip_ws(s@, i as int),
        i <= r <= s@.len(),
{
    let mut j: usize = i;
    while j < s.len() && is_whitespace(s[j])
        invariant
            i <= j <= s@.len(),
            skip_ws(s@, j as int) == skip_ws(s@, i as int),
        decreases s@.len() - j,
    {
        j = j + 1;
    }
    j
}

fn find_token_end(s: &[char], i: usize) -> (r: usize)
    requires
        i <= s@.len(),
    ensures
        r == token_end(s@, i as int),
        i <= r <= s@.len(),
{
    let mut j: usize = i;
    while j < s.len() && !is_whitespace(s[j])
        invariant
            i <= j <= s@.len(),
            token_end(s@, j as int) == token_end(s@, i as int),
        decreases s@.len() - j,
    {
        j = j + 1;
    }
    j
}

/// Where the tokens of one trace line lie: four fields as ranges of
/// character indices, and the range of the remaining text.
pub struct Fields {
    pub bounds: [(usize, usize); 4],
    pub rest: (usize, usize),
}

/// Splits `s` into its first four whitespace-delimited tokens and the
/// remaining text; `None` where fewer than four tokens are present.
pub fn split_fields(s: &[char]) -> (r: Option<Fields>)
    ensures
        r is None <==> !has_field(s@, 3),
        r matches Some(f) ==> {
            &&& forall|k: int|
                0 <= k < 4 ==> {
                    &&& #[trigger] f.bounds[k].0 <= f.bounds[k].1 <= s@.len()
                    &&& s@.subrange(f.bounds[k].0 as int, f.bounds[k].1 as int) == field(
                        s@,
                        k as nat,
                    )
                }
            &&& f.rest.0 <= f.rest.1 <= s@.len()
            &&& s@.subrange(f.rest.0 as int, f.rest.1 as int) == rest_text(s@)
        },
{
    let mut bounds: [(usize, usize); 4] = [(0, 0); 4];
    let mut pos: usize = 0;
    let mut k: usize = 0;
    while k < 4
        invariant
            k <= 4,
            pos <= s@.len(),
            k > 0 ==> pos == token_end(s@, field_start(s@, (k - 1) as nat)),
            k == 0 ==> pos == 0,
            forall|j: int|
                0 <= j < k ==> {
                    &&& #[trigger] bounds[j].0 == field_start(s@, j as nat)
                    &&& bounds[j].1 == token_end(s@, field_start(s@, j as nat))
                    &&& bounds[j].0 <= bounds[j].1 <= s@.len()
                    &&& has_field(s@, j as nat)
                },
        decreases 4 - k,
    {
        let a = skip_whitespace(s, pos);
        assert(a == field_start(s@, k as nat));
        if a >= s.len() {
            assert(!has_field(s@, k as nat));
            proof {
                lemma_missing_field_stays(s@, k as nat, 3);
            }
            return None;
        }
        let e = find_token_end(s, a);
        bounds[k] = (a, e);
        pos = e;
        k = k + 1;
    }
    assert(bounds[3].0 == field_start(s@, 3));
    assert(has_field(s@, 3));
    let a = skip_whitespace(s, pos);
    assert(a == field_start(s@, 4));
    let rest = if a >= s.len() {
        (a, a)
    } else {
        let mut j: usize = s.len();
        proof {
            lemma_skip_ws_bounds(s@, pos as int);
        }
        while j > a + 1 && is_whitespace(s[j - 1])
            invariant
                a < j <= s@.len(),
                a < s@.len(),
                !is_ws(s@[a as int]),
                trim_len(s@, j as int) == trim_len(s@, s@.len() as int),
            decreases j,
        {
            j = j - 1;
        }
        assert(trim_len(s@, j as int) == j);
        (a, j)
    };
    Some(Fields { bounds, rest })
}

proof fn lemma_missing_field_stays(s: Seq<char>, k: nat, m: nat)
    requires
        !has_field(s, k),
        k <= m,
    ensures
        !has_field(s, m),
    decreases m - k,
{
    if k < m {
        assert(token_end(s, field_start(s, k)) == s.len());
        assert(field_start(s, (k + 1) as nat) == skip_ws(s, token_end(s, field_start(s, k))));
        lemma_missing_field_stays(s, (k + 1) as nat, m);
    }
}

} // verus!
