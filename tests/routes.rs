use server::routes::{
    count_primes_below, draw_workload, is_prime, mixed_cpu_report, mixed_io_report,
    not_found_body, prime_report, reply, route, status_line, workload, Route, Workload,
    PRIME_LIMIT,
};

#[test]
fn request_lines_pick_routes() {
    assert_eq!(route("GET / HTTP/1.1"), Route::Index);
    assert_eq!(route("GET /cpu HTTP/1.1"), Route::Cpu);
    assert_eq!(route("GET /sleep HTTP/1.1"), Route::Sleep);
    assert_eq!(route("GET /mixed HTTP/1.1"), Route::Mixed);
    assert_eq!(route("GET /other HTTP/1.1"), Route::NotFound);
    assert_eq!(route("GET /cpu"), Route::NotFound);
    assert_eq!(route("POST / HTTP/1.1"), Route::NotFound);
    assert_eq!(route(""), Route::NotFound);
    assert_eq!(route("GET / "), Route::Index);
    assert_eq!(route("GET /"), Route::NotFound);
    assert_eq!(route("GET /é HTTP/1.1"), Route::NotFound);
}

#[test]
fn primality() {
    let primes = [2u64, 3, 5, 7, 11, 13, 97, 7919, 9973];
    let composites = [0u64, 1, 4, 6, 9, 15, 25, 49, 121, 9999, 10000];
    for p in primes {
        assert!(is_prime(p), "{} is prime", p);
    }
    for c in composites {
        assert!(!is_prime(c), "{} is not prime", c);
    }
    assert!(is_prime(4294967291));
    assert!(!is_prime(4294967297));
}

#[test]
fn prime_counts() {
    assert_eq!(count_primes_below(0), 0);
    assert_eq!(count_primes_below(2), 0);
    assert_eq!(count_primes_below(3), 1);
    assert_eq!(count_primes_below(10), 4);
    assert_eq!(count_primes_below(100), 25);
    assert_eq!(count_primes_below(PRIME_LIMIT), 1229);
}

#[test]
fn mixed_draws() {
    assert_eq!(workload(0), Workload::Baseline);
    assert_eq!(workload(1), Workload::Cpu);
    assert_eq!(workload(2), Workload::Io);
    assert_eq!(workload(200), Workload::Io);
}

#[test]
fn mixed_draws_reach_every_kind() {
    let mut seen = [false; 3];
    for _ in 0..300 {
        match draw_workload() {
            Workload::Baseline => seen[0] = true,
            Workload::Cpu => seen[1] = true,
            Workload::Io => seen[2] = true,
        }
    }
    assert_eq!(seen, [true, true, true]);
}

#[test]
fn replies_are_framed() {
    assert_eq!(
        reply("HTTP/1.1 200 OK", b"hello"),
        b"HTTP/1.1 200 OK\r\nContent-Length: 5\r\n\r\nhello".to_vec()
    );
    assert_eq!(
        reply("HTTP/1.1 404 NOT FOUND", b""),
        b"HTTP/1.1 404 NOT FOUND\r\nContent-Length: 0\r\n\r\n".to_vec()
    );
    let body = "x".repeat(1234);
    let expected = format!("HTTP/1.1 200 OK\r\nContent-Length: 1234\r\n\r\n{}", body);
    assert_eq!(reply("HTTP/1.1 200 OK", body.as_bytes()), expected.into_bytes());
    let accented = "é";
    assert_eq!(
        reply("500 Internal Server Error", accented.as_bytes()),
        "500 Internal Server Error\r\nContent-Length: 2\r\n\r\né".as_bytes().to_vec()
    );
}

#[test]
fn status_lines_per_route() {
    assert_eq!(status_line(Route::Index), "HTTP/1.1 200 OK");
    assert_eq!(status_line(Route::Cpu), "HTTP/1.1 200 OK");
    assert_eq!(status_line(Route::Sleep), "HTTP/1.1 200 OK");
    assert_eq!(status_line(Route::Mixed), "HTTP/1.1 200 OK");
    assert_eq!(status_line(Route::NotFound), "HTTP/1.1 404 NOT FOUND");
}

#[test]
fn route_bodies() {
    assert_eq!(prime_report(), b"Found 1229 primes up to 10,000".to_vec());
    assert_eq!(
        mixed_cpu_report(),
        b"Mixed workload (CPU): Found 1229 primes up to 10,000".to_vec()
    );
    assert_eq!(mixed_io_report(), "Mixed workload (I/O): Completed after sleep");
    assert_eq!(not_found_body(None), b"404 Not Found".to_vec());
    assert_eq!(not_found_body(Some(b"<p>gone</p>".to_vec())), b"<p>gone</p>".to_vec());
}

#[test]
fn cpu_route_reply() {
    let line = "GET /cpu HTTP/1.1";
    let r = route(line);
    assert_eq!(
        reply(status_line(r), &prime_report()),
        b"HTTP/1.1 200 OK\r\nContent-Length: 30\r\n\r\nFound 1229 primes up to 10,000".to_vec()
    );
    let r = route("GET /nothing HTTP/1.1");
    assert_eq!(
        reply(status_line(r), &not_found_body(None)),
        b"HTTP/1.1 404 NOT FOUND\r\nContent-Length: 13\r\n\r\n404 Not Found".to_vec()
    );
}
