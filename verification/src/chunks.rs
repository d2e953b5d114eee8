//! Byte strings taken as runs of fixed-width elements.
use vstd::prelude::*;

verus! {

/// `input` with each run of `n` bytes replaced by `f` of that run. Bytes after the last
/// whole run are dropped.
pub open spec fn map_chunks(input: Seq<u8>, n: nat, f: spec_fn(Seq<u8>) -> Seq<u8>) -> Seq<u8>
    decreases input.len(),
{
    if n == 0 || input.len() < n {
        Seq::empty()
    } else {
        f(input.subrange(0, n as int)) + map_chunks(
            input.subrange(n as int, input.len() as int),
            n,
            f,
        )
    }
}

/// `g` of each run of `na` bytes of `a` together with the run of `nb` bytes of `b` at the
/// same place, one after another, for as long as both have a whole run left.
pub open spec fn zip_chunks(
    a: Seq<u8>,
    na: nat,
    b: Seq<u8>,
    nb: nat,
    g: spec_fn(Seq<u8>, Seq<u8>) -> Seq<u8>,
) -> Seq<u8>
    decreases a.len(),
{
    if na == 0 || nb == 0 || a.len() < na || b.len() < nb {
        Seq::empty()
    } else {
        g(a.subrange(0, na as int), b.subrange(0, nb as int)) + zip_chunks(
            a.subrange(na as int, a.len() as int),
            na,
            b.subrange(nb as int, b.len() as int),
            nb,
            g,
        )
    }
}

/// Whether `len` bytes are a whole number of runs of `n` bytes.
pub open spec fn aligned(len: nat, n: nat) -> bool {
    n > 0 && len % n == 0
}

/// Whether each of the blocks is a whole number of elements of `width` bytes.
pub open spec fn all_aligned(blocks: Seq<Vec<u8>>, width: nat) -> bool {
    forall|j: int| 0 <= j < blocks.len() ==> aligned((#[trigger] blocks[j])@.len(), width)
}

/// What is left of a string of whole elements behind some of them is whole elements, and
/// whole elements behind whole elements are whole elements.
pub proof fn lemma_rest_is_aligned(whole: nat, part: nat, w: nat)
    requires
        aligned(part, w),
        part <= whole,
    ensures
        aligned(whole, w) == aligned((whole - part) as nat, w),
{
    vstd::arithmetic::div_mod::lemma_fundamental_div_mod(part as int, w as int);
    let q = part as int / w as int;
    assert(w * q == q * w) by (nonlinear_arith);
    vstd::arithmetic::div_mod::lemma_mod_multiples_vanish(q, whole - part, w as int);
    assert(w * q + (whole - part) == whole);
}

/// Within a byte string of whole runs, a run that starts before the end lies inside.
pub proof fn lemma_chunk_step(at: int, len: int, n: int, m: int)
    requires
        n > 0,
        0 <= at < len,
        at % n == 0,
        len % n == 0,
    ensures
        at + n <= len,
        (at + n) % n == 0,
        (at + n) / n == at / n + 1,
        ((at + n) / n) * m == (at / n) * m + m,
{
    vstd::arithmetic::div_mod::lemma_fundamental_div_mod(at, n);
    vstd::arithmetic::div_mod::lemma_fundamental_div_mod(len, n);
    let p = at / n;
    let q = len / n;
    assert(at == n * p);
    assert(len == n * q);
    assert(p < q) by (nonlinear_arith)
        requires
            n > 0,
            n * p < n * q,
    ;
    assert(n * (p + 1) <= n * q) by (nonlinear_arith)
        requires
            n > 0,
            p + 1 <= q,
    ;
    assert(n * (p + 1) == n * p + n) by (nonlinear_arith);
    vstd::arithmetic::div_mod::lemma_fundamental_div_mod_converse(at + n, n, p + 1, 0);
    assert((p + 1) * m == p * m + m) by (nonlinear_arith);
}

/// Mapping a string of whole runs that is followed by one more run.
pub proof fn lemma_map_chunks_append(
    a: Seq<u8>,
    c: Seq<u8>,
    n: nat,
    f: spec_fn(Seq<u8>) -> Seq<u8>,
)
    requires
        aligned(a.len(), n),
        c.len() == n,
    ensures
        map_chunks(a + c, n, f) == map_chunks(a, n, f) + f(c),
    decreases a.len(),
{
    if a.len() == 0 {
        assert(a + c =~= c);
        assert((a + c).subrange(0, n as int) =~= c);
        assert((a + c).subrange(n as int, (a + c).len() as int) =~= Seq::<u8>::empty());
        assert(map_chunks(a, n, f) =~= Seq::<u8>::empty());
        assert(map_chunks(Seq::<u8>::empty(), n, f) =~= Seq::<u8>::empty());
        assert(map_chunks(a + c, n, f) =~= f(c));
    } else {
        lemma_chunk_step(0, a.len() as int, n as int, 1);
        let rest = a.subrange(n as int, a.len() as int);
        assert((a + c).subrange(0, n as int) =~= a.subrange(0, n as int));
        assert((a + c).subrange(n as int, (a + c).len() as int) =~= rest + c);
        vstd::arithmetic::div_mod::lemma_fundamental_div_mod(a.len() as int, n as int);
        let q = a.len() as int / n as int;
        assert(n * q - n == n * (q - 1)) by (nonlinear_arith);
        vstd::arithmetic::div_mod::lemma_fundamental_div_mod_converse(
            a.len() - n,
            n as int,
            q - 1,
            0,
        );
        lemma_map_chunks_append(rest, c, n, f);
        assert(map_chunks(a + c, n, f) =~= map_chunks(a, n, f) + f(c));
    }
}

/// Mapping a string of whole runs that is followed by any string.
pub proof fn lemma_map_chunks_concat(
    a: Seq<u8>,
    b: Seq<u8>,
    n: nat,
    f: spec_fn(Seq<u8>) -> Seq<u8>,
)
    requires
        aligned(a.len(), n),
    ensures
        map_chunks(a + b, n, f) == map_chunks(a, n, f) + map_chunks(b, n, f),
    decreases a.len(),
{
    if a.len() == 0 {
        assert(a + b =~= b);
        assert(map_chunks(a, n, f) =~= Seq::<u8>::empty());
        assert(map_chunks(a, n, f) + map_chunks(b, n, f) =~= map_chunks(b, n, f));
    } else {
        lemma_chunk_step(0, a.len() as int, n as int, 1);
        lemma_shorter_by_a_run(a.len() as int, n as int);
        let rest = a.subrange(n as int, a.len() as int);
        assert((a + b).subrange(0, n as int) =~= a.subrange(0, n as int));
        assert((a + b).subrange(n as int, (a + b).len() as int) =~= rest + b);
        lemma_map_chunks_concat(rest, b, n, f);
        assert(map_chunks(a + b, n, f) =~= map_chunks(a, n, f) + map_chunks(b, n, f));
    }
}

/// Whether `p` holds of every run of `n` bytes of `input`.
pub open spec fn every_chunk(input: Seq<u8>, n: nat, p: spec_fn(Seq<u8>) -> bool) -> bool
    decreases input.len(),
{
    if n == 0 || input.len() < n {
        true
    } else {
        p(input.subrange(0, n as int)) && every_chunk(
            input.subrange(n as int, input.len() as int),
            n,
            p,
        )
    }
}

/// Mapping back what was mapped gives a string of whole runs back, where the second
/// mapping undoes the first on every run of the string.
pub proof fn lemma_map_chunks_undone(
    input: Seq<u8>,
    n: nat,
    f: spec_fn(Seq<u8>) -> Seq<u8>,
    m: nat,
    g: spec_fn(Seq<u8>) -> Seq<u8>,
    p: spec_fn(Seq<u8>) -> bool,
)
    requires
        aligned(input.len(), n),
        m > 0,
        forall|c: Seq<u8>| c.len() == n ==> (#[trigger] f(c)).len() == m,
        forall|c: Seq<u8>| c.len() == n && #[trigger] p(c) ==> g(f(c)) == c,
        every_chunk(input, n, p),
    ensures
        map_chunks(map_chunks(input, n, f), m, g) == input,
    decreases input.len(),
{
    if input.len() == 0 {
        assert(map_chunks(input, n, f) =~= Seq::<u8>::empty());
        assert(map_chunks(Seq::<u8>::empty(), m, g) =~= Seq::<u8>::empty());
        assert(input =~= Seq::<u8>::empty());
    } else {
        lemma_chunk_step(0, input.len() as int, n as int, 1);
        lemma_shorter_by_a_run(input.len() as int, n as int);
        let head = input.subrange(0, n as int);
        let rest = input.subrange(n as int, input.len() as int);
        let made = f(head);
        let more = map_chunks(rest, n, f);
        lemma_map_chunks_undone(rest, n, f, m, g, p);
        assert(aligned(made.len(), m)) by {
            vstd::arithmetic::div_mod::lemma_mod_self_0(m as int);
        }
        lemma_map_chunks_concat(made, more, m, g);
        assert(map_chunks(made, m, g) =~= head) by {
            assert(made.subrange(0, m as int) =~= made);
            assert(made.subrange(m as int, made.len() as int) =~= Seq::<u8>::empty());
            assert(map_chunks(Seq::<u8>::empty(), m, g) =~= Seq::<u8>::empty());
            assert(p(head));
        }
        assert(head + rest =~= input);
    }
}

/// Mapping runs of `n` bytes to runs of `m` bytes gives as many runs.
pub proof fn lemma_map_chunks_len(input: Seq<u8>, n: nat, f: spec_fn(Seq<u8>) -> Seq<u8>, m: nat)
    requires
        n > 0,
        forall|c: Seq<u8>| c.len() == n ==> (#[trigger] f(c)).len() == m,
    ensures
        map_chunks(input, n, f).len() == (input.len() / n) * m,
        m > 0 ==> aligned(map_chunks(input, n, f).len(), m),
    decreases input.len(),
{
    if input.len() < n {
        vstd::arithmetic::div_mod::lemma_basic_div(input.len() as int, n as int);
        assert((input.len() / n) * m == 0) by (nonlinear_arith)
            requires
                input.len() / n == 0,
        ;
    } else {
        let rest = input.subrange(n as int, input.len() as int);
        lemma_map_chunks_len(rest, n, f, m);
        vstd::arithmetic::div_mod::lemma_div_plus_one(rest.len() as int, n as int);
        let q = rest.len() as int / n as int;
        assert(input.len() as int / n as int == q + 1);
        assert((q + 1) * m == q * m + m) by (nonlinear_arith);
    }
    if m > 0 {
        vstd::arithmetic::div_mod::lemma_mod_multiples_basic((input.len() / n) as int, m as int);
    }
}

/// Zipping two mapped strings undoes the mapping where `g` undoes the pair of maps.
pub proof fn lemma_zip_of_maps(
    input: Seq<u8>,
    n: nat,
    f0: spec_fn(Seq<u8>) -> Seq<u8>,
    n0: nat,
    f1: spec_fn(Seq<u8>) -> Seq<u8>,
    n1: nat,
    g: spec_fn(Seq<u8>, Seq<u8>) -> Seq<u8>,
)
    requires
        aligned(input.len(), n),
        n0 > 0,
        n1 > 0,
        forall|c: Seq<u8>| c.len() == n ==> (#[trigger] f0(c)).len() == n0,
        forall|c: Seq<u8>| c.len() == n ==> (#[trigger] f1(c)).len() == n1,
        forall|c: Seq<u8>| c.len() == n ==> g(#[trigger] f0(c), f1(c)) == c,
    ensures
        zip_chunks(map_chunks(input, n, f0), n0, map_chunks(input, n, f1), n1, g) == input,
    decreases input.len(),
{
    let a = map_chunks(input, n, f0);
    let b = map_chunks(input, n, f1);
    if input.len() == 0 {
        assert(a =~= Seq::<u8>::empty());
        assert(zip_chunks(a, n0, b, n1, g) =~= input);
    } else {
        lemma_chunk_step(0, input.len() as int, n as int, 1);
        let c = input.subrange(0, n as int);
        let rest = input.subrange(n as int, input.len() as int);
        vstd::arithmetic::div_mod::lemma_fundamental_div_mod(input.len() as int, n as int);
        let q = input.len() as int / n as int;
        assert(n * q - n == n * (q - 1)) by (nonlinear_arith);
        vstd::arithmetic::div_mod::lemma_fundamental_div_mod_converse(
            input.len() - n,
            n as int,
            q - 1,
            0,
        );
        lemma_zip_of_maps(rest, n, f0, n0, f1, n1, g);
        let ra = map_chunks(rest, n, f0);
        let rb = map_chunks(rest, n, f1);
        assert(a == f0(c) + ra);
        assert(b == f1(c) + rb);
        assert(a.subrange(0, n0 as int) =~= f0(c));
        assert(b.subrange(0, n1 as int) =~= f1(c));
        assert(a.subrange(n0 as int, a.len() as int) =~= ra);
        assert(b.subrange(n1 as int, b.len() as int) =~= rb);
        assert(zip_chunks(a, n0, b, n1, g) =~= c + rest);
        assert(c + rest =~= input);
    }
}

/// Among strings of whole runs, the shorter one has fewer runs.
pub proof fn lemma_runs_ordered(at: int, len: int, n: int)
    requires
        n > 0,
        0 <= at < len,
        at % n == 0,
        len % n == 0,
    ensures
        at / n < len / n,
{
    lemma_chunk_step(at, len, n, 1);
    vstd::arithmetic::div_mod::lemma_div_is_ordered(at + n, len, n);
}

/// Zipping two strings of equally many whole runs that are each followed by one more run.
pub proof fn lemma_zip_chunks_append(
    a: Seq<u8>,
    ca: Seq<u8>,
    na: nat,
    b: Seq<u8>,
    cb: Seq<u8>,
    nb: nat,
    g: spec_fn(Seq<u8>, Seq<u8>) -> Seq<u8>,
)
    requires
        aligned(a.len(), na),
        aligned(b.len(), nb),
        a.len() / na == b.len() / nb,
        ca.len() == na,
        cb.len() == nb,
    ensures
        zip_chunks(a + ca, na, b + cb, nb, g) == zip_chunks(a, na, b, nb, g) + g(ca, cb),
    decreases a.len(),
{
    if a.len() == 0 {
        if b.len() > 0 {
            lemma_runs_ordered(0, b.len() as int, nb as int);
        }
        assert(a + ca =~= ca);
        assert(b + cb =~= cb);
        assert(ca.subrange(0, na as int) =~= ca);
        assert(cb.subrange(0, nb as int) =~= cb);
        assert(ca.subrange(na as int, ca.len() as int) =~= Seq::<u8>::empty());
        assert(zip_chunks(
            Seq::<u8>::empty(),
            na,
            cb.subrange(nb as int, cb.len() as int),
            nb,
            g,
        ) =~= Seq::<u8>::empty());
        assert(zip_chunks(a, na, b, nb, g) =~= Seq::<u8>::empty());
        assert(zip_chunks(a + ca, na, b + cb, nb, g) =~= g(ca, cb));
    } else {
        lemma_chunk_step(0, a.len() as int, na as int, 1);
        if b.len() == 0 {
            lemma_runs_ordered(0, a.len() as int, na as int);
        }
        lemma_chunk_step(0, b.len() as int, nb as int, 1);
        let ra = a.subrange(na as int, a.len() as int);
        let rb = b.subrange(nb as int, b.len() as int);
        assert((a + ca).subrange(0, na as int) =~= a.subrange(0, na as int));
        assert((b + cb).subrange(0, nb as int) =~= b.subrange(0, nb as int));
        assert((a + ca).subrange(na as int, (a + ca).len() as int) =~= ra + ca);
        assert((b + cb).subrange(nb as int, (b + cb).len() as int) =~= rb + cb);
        lemma_shorter_by_a_run(a.len() as int, na as int);
        lemma_shorter_by_a_run(b.len() as int, nb as int);
        lemma_zip_chunks_append(ra, ca, na, rb, cb, nb, g);
        assert(zip_chunks(a + ca, na, b + cb, nb, g) =~= zip_chunks(a, na, b, nb, g) + g(
            ca,
            cb,
        ));
    }
}

/// A string of whole runs without its first run is a string of whole runs, one fewer.
pub proof fn lemma_shorter_by_a_run(len: int, n: int)
    requires
        n > 0,
        len >= n,
        len % n == 0,
    ensures
        (len - n) % n == 0,
        (len - n) / n == len / n - 1,
{
    vstd::arithmetic::div_mod::lemma_fundamental_div_mod(len, n);
    let q = len / n;
    assert(n * q - n == n * (q - 1)) by (nonlinear_arith);
    vstd::arithmetic::div_mod::lemma_fundamental_div_mod_converse(len - n, n, q - 1, 0);
}

} // verus!
