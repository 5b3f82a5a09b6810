//! What the demo server does with a request: which route a request line
//! names, the work behind each route, and how a reply is framed.
use vstd::prelude::*;

use rand::Rng;

verus! {

use vstd::string::StringSliceAdditionalSpecFns;

/// The routes the server answers.
#[derive(Clone, Copy, Debug, PartialEq, Eq, Structural)]
pub enum Route {
    /// `GET / `: the page.
    Index,
    /// `GET /cpu `: a prime count.
    Cpu,
    /// `GET /sleep `: the page, after a pause.
    Sleep,
    /// `GET /mixed `: one of the three above, drawn at random.
    Mixed,
    /// Anything else.
    NotFound,
}

/// The kinds of work that the mixed route picks from.
#[derive(Clone, Copy, Debug, PartialEq, Eq, Structural)]
pub enum Workload {
    /// Answer at once with the page.
    Baseline,
    /// Count primes.
    Cpu,
    /// Pause, then answer.
    Io,
}

/// The bound below which the CPU route counts primes.
pub const PRIME_LIMIT: u64 = 10000;

/// `p` is a prefix of `s`.
pub open spec fn starts_with(s: Seq<u8>, p: Seq<u8>) -> bool {
    p.len() <= s.len() && s.subrange(0, p.len() as int) == p
}

/// The route that a request line, as bytes, names.
pub open spec fn route_spec(line: Seq<u8>) -> Route {
    if starts_with(line, "GET / ".spec_bytes()) {
        Route::Index
    } else if starts_with(line, "GET /cpu ".spec_bytes()) {
        Route::Cpu
    } else if starts_with(line, "GET /sleep ".spec_bytes()) {
        Route::Sleep
    } else if starts_with(line, "GET /mixed ".spec_bytes()) {
        Route::Mixed
    } else {
        Route::NotFound
    }
}

fn has_prefix(s: &[u8], p: &[u8]) -> (r: bool)
    ensures
        r == starts_with(s@, p@),
{
    if p.len() > s.len() {
        return false;
    }
    let mut i: usize = 0;
    while i < p.len()
        invariant
            p@.len() <= s@.len(),
            i <= p@.len(),
            s@.subrange(0, i as int) == p@.subrange(0, i as int),
        decreases p@.len() - i,
    {
        if s[i] != p[i] {
            assert(s@.subrange(0, p@.len() as int)[i as int] != p@[i as int]);
            return false;
        }
        assert(s@.subrange(0, i + 1) =~= s@.subrange(0, i as int).push(s@[i as int]));
        assert(p@.subrange(0, i + 1) =~= p@.subrange(0, i as int).push(p@[i as int]));
        i = i + 1;
    }
    assert(p@.subrange(0, p@.len() as int) =~= p@);
    true
}

/// The route that `line` names, by the first of the literal prefixes
/// `GET / `, `GET /cpu `, `GET /sleep ` and `GET /mixed ` that it starts
/// with.
pub fn route(line: &str) -> (r: Route)
    ensures
        r == route_spec(line.spec_bytes()),
{
    let bytes = line.as_bytes();
    if has_prefix(bytes, "GET / ".as_bytes()) {
        Route::Index
    } else if has_prefix(bytes, "GET /cpu ".as_bytes()) {
        Route::Cpu
    } else if has_prefix(bytes, "GET /sleep ".as_bytes()) {
        Route::Sleep
    } else if has_prefix(bytes, "GET /mixed ".as_bytes()) {
        Route::Mixed
    } else {
        Route::NotFound
    }
}


/// `n` is prime: at least 2, and no number from 2 up to `n` divides it.
pub open spec fn is_prime_spec(n: nat) -> bool {
    n >= 2 && forall|d: nat| 2 <= d < n ==> #[trigger] (n % d) != 0
}

/// The number of primes below `n`.
pub open spec fn primes_below(n: nat) -> nat
    decreases n,
{
    if n == 0 {
        0
    } else {
        primes_below((n - 1) as nat) + if is_prime_spec((n - 1) as nat) {
            1nat
        } else {
            0nat
        }
    }
}

/// A divisor of `n` at or above `i`, where `i * i > n`, leaves a cofactor
/// below `i` that divides `n` too.
proof fn lemma_cofactor(n: nat, i: nat, d: nat)
    requires
        2 <= i,
        i * i > n,
        i <= d < n,
        n % d == 0,
    ensures
        2 <= n / d < i,
        n % (n / d) == 0,
{
    let q = n / d;
    vstd::arithmetic::div_mod::lemma_fundamental_div_mod(n as int, d as int);
    assert(n == d * q);
    assert(q >= 2) by (nonlinear_arith)
        requires
            n == d * q,
            d < n,
            d >= 2,
    ;
    assert(q < i) by (nonlinear_arith)
        requires
            n == d * q,
            i * i > n,
            d >= i,
            i >= 2,
    ;
    vstd::arithmetic::div_mod::lemma_mod_multiples_basic(d as int, q as int);
    assert(n % q == (d * q) % q);
    vstd::arithmetic::mul::lemma_mul_is_commutative(d as int, q as int);
}

/// Whether `n` is prime, by trial division up to its square root.
pub fn is_prime(n: u64) -> (r: bool)
    ensures
        r == is_prime_spec(n as nat),
{
    if n <= 1 {
        return false;
    }
    let mut i: u64 = 2;
    while i <= n / i
        invariant
            2 <= i,
            n >= 2,
            forall|d: nat| 2 <= d < i ==> #[trigger] ((n as nat) % d) != 0,
        decreases n - i,
    {
        if n % i == 0 {
            assert(i < n) by (nonlinear_arith)
                requires
                    i <= n / i,
                    i >= 2,
                    n >= 2,
            ;
            return false;
        }
        proof {
            assert(i < n) by (nonlinear_arith)
                requires
                    i <= n / i,
                    i >= 2,
                    n >= 2,
            ;
        }
        i = i + 1;
    }
    proof {
        assert(i * i > n) by (nonlinear_arith)
            requires
                i > n / i,
                i >= 2,
        ;
        assert forall|d: nat| 2 <= d < n implies #[trigger] ((n as nat) % d) != 0 by {
            if d >= i && (n as nat) % d == 0 {
                lemma_cofactor(n as nat, i as nat, d);
                let q = (n as nat) / d;
                assert((n as nat) % q != 0);
            }
        }
    }
    true
}

/// The number of primes below `limit`.
pub fn count_primes_below(limit: u64) -> (r: u64)
    ensures
        r == primes_below(limit as nat),
{
    let mut count: u64 = 0;
    let mut k: u64 = 0;
    while k < limit
        invariant
            k <= limit,
            count == primes_below(k as nat),
            count <= k,
        decreases limit - k,
    {
        if is_prime(k) {
            count = count + 1;
        }
        k = k + 1;
    }
    count
}

/// The work that a draw from `0..3` selects on the mixed route.
pub open spec fn workload_spec(draw: u8) -> Workload {
    if draw == 0 {
        Workload::Baseline
    } else if draw == 1 {
        Workload::Cpu
    } else {
        Workload::Io
    }
}

/// The work that `draw` selects on the mixed route: 0 the quick reply, 1
/// the prime count, anything else the pause.
pub fn workload(draw: u8) -> (r: Workload)
    ensures
        r == workload_spec(draw),
{
    if draw == 0 {
        Workload::Baseline
    } else if draw == 1 {
        Workload::Cpu
    } else {
        Workload::Io
    }
}

/// Relies on rand's `thread_rng().gen_range(0..n)`: a value drawn from
/// `0..n`, which it asserts is not empty.
#[verifier::external_body]
fn random_below(n: u8) -> (r: u8)
    requires
        n > 0,
    ensures
        r < n,
{
    rand::thread_rng().gen_range(0..n)
}

/// Draws the work for one request on the mixed route, each kind with equal
/// chance.
pub fn draw_workload() -> (r: Workload)
    ensures
        exists|d: u8| d < 3 && r == workload_spec(d),
{
    let draw = random_below(3);
    workload(draw)
}


/// The decimal digits of `n`, as ASCII bytes, without leading zeros.
pub open spec fn decimal(n: nat) -> Seq<u8>
    decreases n,
{
    if n < 10 {
        seq![(48 + n) as u8]
    } else {
        decimal(n / 10).push((48 + n % 10) as u8)
    }
}

/// A reply: the status line, a `Content-Length` header giving the length of
/// the body in bytes, an empty line, and the body.
pub open spec fn reply_spec(status: Seq<u8>, body: Seq<u8>) -> Seq<u8> {
    status + "\r\nContent-Length: ".spec_bytes() + decimal(body.len()) + "\r\n\r\n".spec_bytes()
        + body
}

fn push_decimal(out: &mut Vec<u8>, n: u64)
    ensures
        final(out)@ == old(out)@ + decimal(n as nat),
    decreases n,
{
    if n >= 10 {
        push_decimal(out, n / 10);
    }
    out.push((48 + n % 10) as u8);
    proof {
        if n < 10 {
            assert(old(out)@ + decimal(n as nat) =~= old(out)@.push((48 + n) as u8));
        } else {
            assert(old(out)@ + decimal(n as nat) =~= (old(out)@ + decimal((n / 10) as nat)).push(
                (48 + n % 10) as u8,
            ));
        }
    }
}

fn push_bytes(out: &mut Vec<u8>, b: &[u8])
    ensures
        final(out)@ == old(out)@ + b@,
{
    let mut i: usize = 0;
    while i < b.len()
        invariant
            i <= b@.len(),
            out@ == old(out)@ + b@.subrange(0, i as int),
        decreases b@.len() - i,
    {
        out.push(b[i]);
        i = i + 1;
        assert(b@.subrange(0, i as int) =~= b@.subrange(0, i - 1).push(b@[i - 1]));
    }
    assert(b@.subrange(0, b@.len() as int) =~= b@);
}

/// Frames a reply with status line `status` and body `body`.
pub fn reply(status: &str, body: &[u8]) -> (r: Vec<u8>)
    ensures
        r@ == reply_spec(status.spec_bytes(), body@),
{
    let mut out: Vec<u8> = Vec::new();
    push_bytes(&mut out, status.as_bytes());
    push_bytes(&mut out, "\r\nContent-Length: ".as_bytes());
    push_decimal(&mut out, body.len() as u64);
    push_bytes(&mut out, "\r\n\r\n".as_bytes());
    push_bytes(&mut out, body);
    out
}

/// The status line of a successful reply.
pub open spec fn ok_status() -> Seq<char> {
    "HTTP/1.1 200 OK"@
}

/// The status line of the reply to an unknown request.
pub open spec fn not_found_status() -> Seq<char> {
    "HTTP/1.1 404 NOT FOUND"@
}

/// The status line with which `route` is answered: not found for an unknown
/// request, success for every route the server knows.
pub fn status_line(route: Route) -> (r: &'static str)
    ensures
        route == Route::NotFound ==> r@ == not_found_status(),
        route != Route::NotFound ==> r@ == ok_status(),
{
    match route {
        Route::NotFound => "HTTP/1.1 404 NOT FOUND",
        _ => "HTTP/1.1 200 OK",
    }
}

/// The body of the CPU route: how many primes lie below `PRIME_LIMIT`.
pub open spec fn prime_report_spec() -> Seq<u8> {
    "Found ".spec_bytes() + decimal(primes_below(PRIME_LIMIT as nat))
        + " primes up to 10,000".spec_bytes()
}

/// Counts the primes below `PRIME_LIMIT` and reports the count:
/// `Found N primes up to 10,000`.
pub fn prime_report() -> (r: Vec<u8>)
    ensures
        r@ == prime_report_spec(),
{
    let mut out: Vec<u8> = Vec::new();
    push_bytes(&mut out, "Found ".as_bytes());
    push_decimal(&mut out, count_primes_below(PRIME_LIMIT));
    push_bytes(&mut out, " primes up to 10,000".as_bytes());
    out
}

/// The body of the mixed route when it drew the prime count.
pub fn mixed_cpu_report() -> (r: Vec<u8>)
    ensures
        r@ == "Mixed workload (CPU): ".spec_bytes() + prime_report_spec(),
{
    let mut out: Vec<u8> = Vec::new();
    push_bytes(&mut out, "Mixed workload (CPU): ".as_bytes());
    let report = prime_report();
    push_bytes(&mut out, report.as_slice());
    out
}

/// The body of the mixed route when it drew the pause.
pub fn mixed_io_report() -> (r: &'static str)
    ensures
        r@ == "Mixed workload (I/O): Completed after sleep"@,
{
    "Mixed workload (I/O): Completed after sleep"
}

/// The body of the reply to an unknown request: the not-found page when it
/// could be read, else the text `404 Not Found`.
pub fn not_found_body(page: Option<Vec<u8>>) -> (r: Vec<u8>)
    ensures
        r@ == match page {
            Some(p) => p@,
            None => "404 Not Found".spec_bytes(),
        },
{
    match page {
        Some(p) => p,
        None => {
            let mut out: Vec<u8> = Vec::new();
            push_bytes(&mut out, "404 Not Found".as_bytes());
            out
        },
    }
}

} // verus!
