//! The dump renderer: partitions a byte window into 16-byte chunks, renders
//! one line per chunk, and — unless every line is requested — collapses each
//! maximal run of two or more consecutive identical full-length chunks into
//! the run's first line followed by a single `*` marker line.

use vstd::prelude::*;
use crate::line::{line_spec, star_line, render_line, NL, STAR};

verus! {

/// Length of the chunk that starts a window of `len` remaining bytes:
/// sixteen, or whatever remains of a short final chunk.
pub open spec fn chunk_len(len: nat) -> nat {
    if len >= 16 {
        16
    } else {
        len
    }
}

/// Every line of the dump in full, one per chunk: the rendering with
/// squeezing disabled.
pub open spec fn render_all(addr: nat, data: Seq<u8>) -> Seq<u8>
    decreases data.len(),
{
    if data.len() == 0 {
        Seq::empty()
    } else {
        let c = chunk_len(data.len()) as int;
        line_spec(addr, data.take(c)) + render_all(addr + 16, data.skip(c))
    }
}

/// The squeezed rendering. `prev` holds the bytes of the previous
/// full-length chunk whose line went out (or began a run), if any, and
/// `marked` says whether the `*` marker for the current run of duplicates
/// has already gone out. A full-length chunk equal to `prev` is replaced by
/// the marker line (first duplicate) or by nothing (later duplicates); any
/// other chunk — a differing one or the short final one — goes out in full
/// and closes the run.
pub open spec fn render_squeezed(addr: nat, data: Seq<u8>, prev: Option<Seq<u8>>, marked: bool) -> Seq<u8>
    decreases data.len(),
{
    if data.len() == 0 {
        Seq::empty()
    } else {
        let c = chunk_len(data.len()) as int;
        let chunk = data.take(c);
        let rest = data.skip(c);
        if c == 16 && prev == Some(chunk) {
            if marked {
                render_squeezed(addr + 16, rest, prev, true)
            } else {
                star_line() + render_squeezed(addr + 16, rest, prev, true)
            }
        } else {
            let next_prev = if c == 16 {
                Some(chunk)
            } else {
                prev
            };
            line_spec(addr, chunk) + render_squeezed(addr + 16, rest, next_prev, false)
        }
    }
}

/// The rendered dump of `data`, addressed from `offset`: every line when
/// `show_all` holds, the squeezed rendering otherwise.
pub open spec fn render_spec(offset: nat, show_all: bool, data: Seq<u8>) -> Seq<u8> {
    if show_all {
        render_all(offset, data)
    } else {
        render_squeezed(offset, data, None, false)
    }
}

/// The bytes of chunk `i` of `data`: sixteen from byte `16 * i` on, or what
/// remains of the final short chunk.
pub open spec fn chunk_at(data: Seq<u8>, i: int) -> Seq<u8> {
    data.subrange(
        16 * i,
        if 16 * i + 16 <= data.len() {
            16 * i + 16
        } else {
            data.len() as int
        },
    )
}

/// The lines of the unsqueezed dump, one sequence element per chunk.
pub open spec fn dump_lines(addr: nat, data: Seq<u8>) -> Seq<Seq<u8>>
    decreases data.len(),
{
    if data.len() == 0 {
        Seq::empty()
    } else {
        let c = chunk_len(data.len()) as int;
        seq![line_spec(addr, data.take(c))] + dump_lines(addr + 16, data.skip(c))
    }
}

/// Concatenation of a sequence of rendered lines.
pub open spec fn concat_lines(ls: Seq<Seq<u8>>) -> Seq<u8>
    decreases ls.len(),
{
    if ls.len() == 0 {
        Seq::empty()
    } else {
        ls[0] + concat_lines(ls.drop_first())
    }
}

/// Splitting one chunk off the front accounts for one sixteenth of the
/// ceiling division.
proof fn lemma_ceil_step(len: nat)
    requires
        1 <= len,
    ensures
        (len + 15) / 16 == 1 + ((len - chunk_len(len)) + 15) / 16,
{
    if len >= 16 {
        let rest: int = len - 16;
        vstd::arithmetic::div_mod::lemma_fundamental_div_mod(rest + 15, 16);
        vstd::arithmetic::div_mod::lemma_mod_bound(rest + 15, 16);
        vstd::arithmetic::div_mod::lemma_fundamental_div_mod_converse(
            len as int + 15,
            16,
            (rest + 15) / 16 + 1,
            (rest + 15) % 16,
        );
    } else {
        vstd::arithmetic::div_mod::lemma_fundamental_div_mod_converse(15, 16, 0, 15);
        vstd::arithmetic::div_mod::lemma_fundamental_div_mod_converse(len as int + 15, 16, 1, len as int - 1);
    }
}

/// With squeezing off the dump has exactly one line — one line feed — per
/// chunk: `ceil(len / 16)` lines in all.
pub proof fn lemma_render_all_line_count(addr: nat, data: Seq<u8>)
    ensures
        crate::line::line_count(render_all(addr, data)) == (data.len() + 15) / 16,
    decreases data.len(),
{
    if data.len() == 0 {
        vstd::arithmetic::div_mod::lemma_fundamental_div_mod_converse(15, 16, 0, 15);
    } else {
        let c = chunk_len(data.len()) as int;
        crate::line::lemma_line_spec_one_line(addr, data.take(c));
        crate::line::lemma_line_count_concat(
            line_spec(addr, data.take(c)),
            render_all(addr + 16, data.skip(c)),
        );
        lemma_render_all_line_count(addr + 16, data.skip(c));
        lemma_ceil_step(data.len());
    }
}

/// With squeezing off the dump is the concatenation of one full line per
/// chunk, chunk `i` labeled with address `addr + 16 * i`: one line per
/// chunk, addresses increasing by sixteen.
pub proof fn lemma_render_all_structure(addr: nat, data: Seq<u8>)
    ensures
        render_all(addr, data) == concat_lines(dump_lines(addr, data)),
        dump_lines(addr, data).len() == (data.len() + 15) / 16,
        forall|i: int|
            0 <= i < dump_lines(addr, data).len() ==> #[trigger] dump_lines(addr, data)[i]
                == line_spec((addr + 16 * i) as nat, chunk_at(data, i)),
    decreases data.len(),
{
    if data.len() == 0 {
        vstd::arithmetic::div_mod::lemma_fundamental_div_mod_converse(15, 16, 0, 15);
        assert(concat_lines(dump_lines(addr, data)) =~= render_all(addr, data));
    } else {
        let c = chunk_len(data.len()) as int;
        let rest = data.skip(c);
        let ls = dump_lines(addr, data);
        lemma_render_all_structure(addr + 16, rest);
        lemma_ceil_step(data.len());
        assert(ls.drop_first() =~= dump_lines(addr + 16, rest));
        assert(ls[0] == line_spec(addr, data.take(c)));
        assert(data.take(c) =~= chunk_at(data, 0));
        assert forall|i: int| 0 <= i < ls.len() implies #[trigger] ls[i] == line_spec(
            (addr + 16 * i) as nat,
            chunk_at(data, i),
        ) by {
            if i > 0 {
                assert(ls[i] == dump_lines(addr + 16, rest)[i - 1]);
                assert(chunk_at(rest, i - 1) =~= chunk_at(data, i));
            }
        }
    }
}

/// `k` repetitions of a chunk, laid end to end.
pub open spec fn repeat_bytes(c: Seq<u8>, k: nat) -> Seq<u8>
    decreases k,
{
    if k == 0 {
        Seq::empty()
    } else {
        c + repeat_bytes(c, (k - 1) as nat)
    }
}

/// A repeated chunk occupies its length times the repetition count.
proof fn lemma_repeat_bytes_len(c: Seq<u8>, k: nat)
    ensures
        repeat_bytes(c, k).len() == k * c.len(),
    decreases k,
{
    if k == 0 {
        assert(k * c.len() == 0) by (nonlinear_arith)
            requires
                k == 0,
        ;
    } else {
        lemma_repeat_bytes_len(c, (k - 1) as nat);
        assert(k * c.len() == c.len() + (k - 1) * c.len()) by (nonlinear_arith)
            requires
                k >= 1,
        ;
    }
}

/// While the marker for a run is already out, further repetitions of the
/// run's chunk add nothing to the output.
proof fn lemma_squeeze_skips_marked_run(addr: nat, c: Seq<u8>, k: nat, rest: Seq<u8>)
    requires
        c.len() == 16,
    ensures
        render_squeezed(addr, repeat_bytes(c, k) + rest, Some(c), true) == render_squeezed(
            addr + 16 * k,
            rest,
            Some(c),
            true,
        ),
    decreases k,
{
    lemma_repeat_bytes_len(c, k);
    if k == 0 {
        assert(repeat_bytes(c, 0) + rest =~= rest);
    } else {
        lemma_repeat_bytes_len(c, (k - 1) as nat);
        let data = repeat_bytes(c, k) + rest;
        assert(data.take(16) =~= c);
        assert(data.skip(16) =~= repeat_bytes(c, (k - 1) as nat) + rest);
        lemma_squeeze_skips_marked_run(addr + 16, c, (k - 1) as nat, rest);
    }
}

/// The squeeze law: a run of `k >= 2` identical full chunks renders as the
/// chunk's one full line followed by exactly one marker line, whatever `k`
/// is; the rest of the dump continues after the run with only the address
/// advanced.
pub proof fn lemma_squeeze_collapses_run(
    addr: nat,
    c: Seq<u8>,
    k: nat,
    rest: Seq<u8>,
    prev: Option<Seq<u8>>,
    marked: bool,
)
    requires
        c.len() == 16,
        k >= 2,
        prev != Some(c),
    ensures
        render_squeezed(addr, repeat_bytes(c, k) + rest, prev, marked) == line_spec(addr, c) + (
        star_line() + render_squeezed((addr + 16 * k) as nat, rest, Some(c), true)),
{
    lemma_repeat_bytes_len(c, k);
    lemma_repeat_bytes_len(c, (k - 1) as nat);
    lemma_repeat_bytes_len(c, (k - 2) as nat);
    let data = repeat_bytes(c, k) + rest;
    assert(data.take(16) =~= c);
    assert(data.skip(16) =~= repeat_bytes(c, (k - 1) as nat) + rest);
    let data1 = repeat_bytes(c, (k - 1) as nat) + rest;
    assert(data1.take(16) =~= c);
    assert(data1.skip(16) =~= repeat_bytes(c, (k - 2) as nat) + rest);
    lemma_squeeze_skips_marked_run(addr + 32, c, (k - 2) as nat, rest);
    assert(render_squeezed(addr, data, prev, marked) == line_spec(addr, c) + render_squeezed(
        addr + 16,
        data1,
        Some(c),
        false,
    ));
    assert(render_squeezed(addr + 16, data1, Some(c), false) == star_line() + render_squeezed(
        addr + 32,
        repeat_bytes(c, (k - 2) as nat) + rest,
        Some(c),
        true,
    ));
    assert(render_squeezed(addr + 32, repeat_bytes(c, (k - 2) as nat) + rest, Some(c), true)
        == render_squeezed((addr + 16 * k) as nat, rest, Some(c), true));
}

/// Rendering is a pure function of its inputs: any two outputs that meet
/// the renderer's contract for the same offset, mode and bytes are
/// byte-identical.
pub proof fn lemma_render_deterministic(
    offset: nat,
    show_all: bool,
    data: Seq<u8>,
    out1: Seq<u8>,
    out2: Seq<u8>,
)
    requires
        out1 == render_spec(offset, show_all, data),
        out2 == render_spec(offset, show_all, data),
    ensures
        out1 == out2,
{
}

/// Empty input renders as empty output — zero lines — in either mode.
pub proof fn lemma_render_empty(offset: nat, show_all: bool)
    ensures
        render_spec(offset, show_all, Seq::<u8>::empty()) == Seq::<u8>::empty(),
{
}

/// Whether the 16 bytes at `a` equal the 16 bytes at `b`.
fn chunks_equal(data: &[u8], a: usize, b: usize) -> (r: bool)
    requires
        a + 16 <= data@.len(),
        b + 16 <= data@.len(),
    ensures
        r == (data@.subrange(a as int, a + 16) == data@.subrange(b as int, b + 16)),
{
    let n: usize = data.len();
    let mut k: usize = 0;
    while k < 16
        invariant
            k <= 16,
            a + 16 <= n,
            b + 16 <= n,
            n == data@.len(),
            forall|m: int|
                0 <= m < k ==> #[trigger] data@.subrange(a as int, a + 16)[m] == data@.subrange(
                    b as int,
                    b + 16,
                )[m],
        decreases 16 - k,
    {
        if data[a + k] != data[b + k] {
            proof {
                assert(data@.subrange(a as int, a + 16)[k as int] != data@.subrange(
                    b as int,
                    b + 16,
                )[k as int]);
            }
            return false;
        }
        proof {
            assert(data@.subrange(a as int, a + 16)[k as int] == data@[a + k]);
            assert(data@.subrange(b as int, b + 16)[k as int] == data@[b + k]);
        }
        k += 1;
    }
    proof {
        assert(data@.subrange(a as int, a + 16) =~= data@.subrange(b as int, b + 16));
    }
    true
}

/// Renders the dump of `data` with addresses labeled from `offset` on:
/// every chunk's line when `show_all` holds, the squeezed dump otherwise.
pub fn render(offset: usize, show_all: bool, data: &[u8]) -> (out: Vec<u8>)
    requires
        offset + data@.len() <= usize::MAX,
    ensures
        out@ == render_spec(offset as nat, show_all, data@),
{
    let mut out: Vec<u8> = Vec::new();
    let len: usize = data.len();
    let mut pos: usize = 0;
    proof {
        assert(data@.skip(0) =~= data@);
        assert(out@ + render_all(offset as nat, data@) =~= render_all(offset as nat, data@));
        assert(out@ + render_squeezed(offset as nat, data@, None, false) =~= render_squeezed(
            offset as nat,
            data@,
            None,
            false,
        ));
    }
    if show_all {
        while pos < len
            invariant
                pos <= len,
                len == data@.len(),
                offset + len <= usize::MAX,
                render_all(offset as nat, data@) == out@ + render_all(
                    (offset + pos) as nat,
                    data@.skip(pos as int),
                ),
            decreases len - pos,
        {
            let c: usize = if len - pos >= 16 {
                16
            } else {
                len - pos
            };
            let chunk = vstd::slice::slice_subrange(data, pos, pos + c);
            let mut line = render_line(offset + pos, chunk);
            proof {
                let tail = data@.skip(pos as int);
                assert(tail.take(c as int) =~= data@.subrange(pos as int, pos + c));
                assert(tail.skip(c as int) =~= data@.skip(pos + c));
                assert(out@ + (line@ + render_all((offset + pos + 16) as nat, data@.skip(pos + c)))
                    =~= (out@ + line@) + render_all((offset + pos + 16) as nat, data@.skip(pos + c)));
                if c < 16 {
                    assert(data@.skip(pos + c) =~= Seq::<u8>::empty());
                    assert(render_all((offset + pos + 16) as nat, data@.skip(pos + c))
                        == render_all((offset + pos + c) as nat, data@.skip(pos + c)));
                }
            }
            out.append(&mut line);
            pos += c;
        }
    } else {
        let mut prev_at: usize = 0;
        let mut has_prev: bool = false;
        let mut marked: bool = false;
        while pos < len
            invariant
                pos <= len,
                len == data@.len(),
                offset + len <= usize::MAX,
                has_prev ==> prev_at + 16 <= pos,
                render_squeezed(offset as nat, data@, None, false) == out@ + render_squeezed(
                    (offset + pos) as nat,
                    data@.skip(pos as int),
                    if has_prev {
                        Some(data@.subrange(prev_at as int, prev_at + 16))
                    } else {
                        None
                    },
                    marked,
                ),
            decreases len - pos,
        {
            let ghost prev: Option<Seq<u8>> = if has_prev {
                Some(data@.subrange(prev_at as int, prev_at + 16))
            } else {
                None
            };
            let c: usize = if len - pos >= 16 {
                16
            } else {
                len - pos
            };
            proof {
                let tail = data@.skip(pos as int);
                assert(tail.take(c as int) =~= data@.subrange(pos as int, pos + c));
                assert(tail.skip(c as int) =~= data@.skip(pos + c));
            }
            let is_dup: bool = if c == 16 && has_prev {
                chunks_equal(data, prev_at, pos)
            } else {
                false
            };
            if is_dup {
                if !marked {
                    let ghost out0 = out@;
                    out.push(STAR);
                    out.push(NL);
                    proof {
                        assert(out@ =~= out0 + star_line());
                        assert(out0 + (star_line() + render_squeezed(
                            (offset + pos + 16) as nat,
                            data@.skip(pos + 16),
                            prev,
                            true,
                        )) =~= (out0 + star_line()) + render_squeezed(
                            (offset + pos + 16) as nat,
                            data@.skip(pos + 16),
                            prev,
                            true,
                        ));
                    }
                }
                marked = true;
            } else {
                let chunk = vstd::slice::slice_subrange(data, pos, pos + c);
                let mut line = render_line(offset + pos, chunk);
                proof {
                    assert(out@ + (line@ + render_squeezed(
                        (offset + pos + 16) as nat,
                        data@.skip(pos + c),
                        if c == 16 {
                            Some(data@.subrange(pos as int, pos + 16))
                        } else {
                            prev
                        },
                        false,
                    )) =~= (out@ + line@) + render_squeezed(
                        (offset + pos + 16) as nat,
                        data@.skip(pos + c),
                        if c == 16 {
                            Some(data@.subrange(pos as int, pos + 16))
                        } else {
                            prev
                        },
                        false,
                    ));
                    if c < 16 {
                        assert(data@.skip(pos + c) =~= Seq::<u8>::empty());
                    }
                }
                out.append(&mut line);
                marked = false;
                if c == 16 {
                    prev_at = pos;
                    has_prev = true;
                }
            }
            pos += c;
        }
    }
    proof {
        assert(data@.skip(len as int) =~= Seq::<u8>::empty());
        assert(out@ + Seq::<u8>::empty() =~= out@);
    }
    out
}

} // verus!
