//! The stride partition of the port range.
//!
//! With `count` workers, worker `index` starts at port `index + 1` and then
//! takes every `count`-th port for as long as the port stays in range.

use vstd::prelude::*;
use vstd::arithmetic::div_mod::*;

verus! {

/// The highest TCP port; the sweep covers `1..=MAX_PORTS`.
pub const MAX_PORTS: u16 = 65535;

/// The ports `start`, `start + stride`, `start + 2 * stride`, ... for as long
/// as they stay within `1..=MAX_PORTS`. Empty when `start` is out of range or
/// `stride` is not positive.
pub open spec fn stride_from(start: int, stride: int) -> Seq<u16>
    decreases
        (if start <= MAX_PORTS {
            MAX_PORTS + 1 - start
        } else {
            0
        }),
{
    if start < 1 || start > MAX_PORTS || stride <= 0 {
        Seq::empty()
    } else {
        seq![start as u16] + stride_from(start + stride, stride)
    }
}

/// The ports that worker `index` of `count` workers probes, in the order in
/// which it probes them.
pub open spec fn assigned_ports(index: int, count: int) -> Seq<u16> {
    if index < 0 {
        Seq::empty()
    } else {
        stride_from(index + 1, count)
    }
}

/// The worker that port `port` falls to when `count` workers share the range.
pub open spec fn owner(port: int, count: int) -> int {
    (port - 1) % count
}

/// Each element is smaller than the one after it.
pub open spec fn strictly_ascending(s: Seq<u16>) -> bool {
    forall|i: int, j: int| 0 <= i < j < s.len() ==> s[i] < s[j]
}

/// A stride holds exactly the ports of the range that lie a whole number of
/// strides above its start.
pub proof fn lemma_stride_members(start: int, stride: int, port: u16)
    requires
        1 <= start,
        1 <= stride,
    ensures
        stride_from(start, stride).contains(port) <==> start <= port <= MAX_PORTS && (port - start)
            % stride == 0,
    decreases
        (if start <= MAX_PORTS {
            MAX_PORTS + 1 - start
        } else {
            0
        }),
{
    let s = stride_from(start, stride);
    if start > MAX_PORTS {
        assert(s.len() == 0);
    } else {
        let rest = stride_from(start + stride, stride);
        lemma_stride_members(start + stride, stride, port);
        assert(s == seq![start as u16] + rest);
        if s.contains(port) {
            let k = choose|k: int| 0 <= k < s.len() && s[k] == port;
            if k == 0 {
                assert(port == start);
                assert((port - start) % stride == 0) by {
                    lemma_small_mod(0, stride as nat);
                }
            } else {
                assert(rest[k - 1] == port);
                assert(rest.contains(port));
                assert((port - start) % stride == 0) by {
                    lemma_mod_add_multiples_vanish(port - start - stride, stride);
                }
            }
        }
        if start <= port <= MAX_PORTS && (port - start) % stride == 0 {
            if port == start {
                assert(s[0] == port);
            } else {
                assert(port - start >= stride) by {
                    if port - start < stride {
                        lemma_small_mod((port - start) as nat, stride as nat);
                    }
                }
                assert((port - start - stride) % stride == 0) by {
                    lemma_mod_add_multiples_vanish(port - start - stride, stride);
                }
                assert(rest.contains(port));
                let k = choose|k: int| 0 <= k < rest.len() && rest[k] == port;
                assert(s[k + 1] == port);
            }
        }
    }
}

/// A stride lists its ports from the lowest to the highest.
pub proof fn lemma_stride_ascending(start: int, stride: int)
    ensures
        strictly_ascending(stride_from(start, stride)),
        forall|i: int|
            0 <= i < stride_from(start, stride).len() ==> stride_from(start, stride)[i] >= start,
    decreases
        (if start <= MAX_PORTS {
            MAX_PORTS + 1 - start
        } else {
            0
        }),
{
    if start < 1 || start > MAX_PORTS || stride <= 0 {
    } else {
        lemma_stride_ascending(start + stride, stride);
        let s = stride_from(start, stride);
        let rest = stride_from(start + stride, stride);
        assert forall|i: int, j: int| 0 <= i < j < s.len() implies s[i] < s[j] by {
            assert(s[j] == rest[j - 1]);
            if i > 0 {
                assert(s[i] == rest[i - 1]);
            }
        }
        assert forall|i: int| 0 <= i < s.len() implies s[i] >= start by {
            if i > 0 {
                assert(s[i] == rest[i - 1]);
            }
        }
    }
}

/// A stride in closed form: from a start in range it holds one port for
/// every whole stride that fits between the start and the end of the range,
/// and its `k`-th port lies `k` strides above the start.
pub proof fn lemma_stride_closed_form(start: int, stride: int)
    requires
        1 <= start <= MAX_PORTS,
        1 <= stride,
    ensures
        stride_from(start, stride).len() == (MAX_PORTS - start) / stride + 1,
        forall|k: int|
            0 <= k < stride_from(start, stride).len() ==> #[trigger] stride_from(start, stride)[k]
                == start + k * stride,
    decreases MAX_PORTS + 1 - start,
{
    let s = stride_from(start, stride);
    let rest = stride_from(start + stride, stride);
    let room = MAX_PORTS - start;
    assert(s == seq![start as u16] + rest);
    if start + stride > MAX_PORTS {
        assert(rest.len() == 0);
        lemma_small_mod(room as nat, stride as nat);
        lemma_fundamental_div_mod(room, stride);
        assert(room / stride == 0) by {
            lemma_basic_div(room, stride);
        }
        assert(s[0] == start + 0 * stride);
    } else {
        lemma_stride_closed_form(start + stride, stride);
        assert((room - stride) / stride + 1 == room / stride) by {
            lemma_div_plus_one(room - stride, stride);
        }
        assert forall|k: int| 0 <= k < s.len() implies #[trigger] s[k] == start + k * stride by {
            if k > 0 {
                assert(s[k] == rest[k - 1]);
                assert(start + stride + (k - 1) * stride == start + k * stride)
                    by (nonlinear_arith);
            }
        }
    }
}

/// The loads are even: of two workers, the one with the higher index has as
/// many ports as the other, or one fewer.
pub proof fn lemma_loads_are_even(low: int, high: int, count: int)
    requires
        1 <= count,
        0 <= low <= high < count,
    ensures
        assigned_ports(low, count).len() - 1 <= assigned_ports(high, count).len()
            <= assigned_ports(low, count).len(),
{
    let a = MAX_PORTS - (low + 1);
    let b = MAX_PORTS - (high + 1);
    if low + 1 <= MAX_PORTS {
        lemma_stride_closed_form(low + 1, count);
        if high + 1 <= MAX_PORTS {
            lemma_stride_closed_form(high + 1, count);
            lemma_div_is_ordered(b, a, count);
            lemma_div_is_ordered(a - count, b, count);
            lemma_div_plus_one(a - count, count);
        } else {
            // The lower worker cannot take a second step either.
            lemma_basic_div(a, count);
        }
    }
}

/// With at least one worker, a port falls to worker `index` exactly if it
/// lies in the range and `index` is its owner.
pub proof fn lemma_assigned_iff_owner(index: int, count: int, port: u16)
    requires
        1 <= count,
        0 <= index < count,
    ensures
        assigned_ports(index, count).contains(port) <==> 1 <= port && owner(port as int, count)
            == index,
{
    lemma_stride_members(index + 1, count, port);
    let x = port - 1;
    if 1 <= port {
        lemma_fundamental_div_mod(x, count);
        lemma_mod_bound(x, count);
    }
    if index + 1 <= port && (port - (index + 1)) % count == 0 {
        let m = port - (index + 1);
        lemma_fundamental_div_mod(m, count);
        lemma_fundamental_div_mod_converse(x, count, m / count, index);
    }
    if 1 <= port && owner(port as int, count) == index {
        assert(x - index == count * (x / count));
        lemma_mod_multiples_basic(x / count, count);
        assert(count * (x / count) == (x / count) * count) by (nonlinear_arith);
        assert(index + 1 <= port) by {
            lemma_div_pos_is_pos(x, count);
            assert(count * (x / count) >= 0) by (nonlinear_arith)
                requires
                    count >= 1,
                    x / count >= 0,
            ;
        }
    }
}

/// The stride partition is an exact cover of the port range: with `count`
/// workers, `count` at least one, every port of `1..=MAX_PORTS` falls to one
/// of the workers `0..count`, no port falls to two of them, no worker is
/// given a port outside the range, and no worker meets a port twice.
pub proof fn lemma_partition_is_exact_cover(count: int)
    requires
        1 <= count,
    ensures
        forall|port: u16|
            1 <= port ==> 0 <= owner(port as int, count) < count && #[trigger] assigned_ports(
                owner(port as int, count),
                count,
            ).contains(port),
        forall|i: int, j: int, port: u16|
            0 <= i < count && 0 <= j < count && #[trigger] assigned_ports(i, count).contains(port)
                && #[trigger] assigned_ports(j, count).contains(port) ==> i == j,
        forall|i: int, port: u16|
            0 <= i < count && #[trigger] assigned_ports(i, count).contains(port) ==> 1 <= port
                <= MAX_PORTS,
        forall|i: int| 0 <= i < count ==> strictly_ascending(#[trigger] assigned_ports(i, count)),
{
    assert forall|port: u16| 1 <= port implies 0 <= owner(port as int, count) < count
        && #[trigger] assigned_ports(owner(port as int, count), count).contains(port) by {
        lemma_mod_bound(port - 1, count);
        lemma_assigned_iff_owner(owner(port as int, count), count, port);
    }
    assert forall|i: int, j: int, port: u16|
        0 <= i < count && 0 <= j < count && #[trigger] assigned_ports(i, count).contains(port)
            && #[trigger] assigned_ports(j, count).contains(port) implies i == j by {
        lemma_assigned_iff_owner(i, count, port);
        lemma_assigned_iff_owner(j, count, port);
    }
    assert forall|i: int, port: u16|
        0 <= i < count && #[trigger] assigned_ports(i, count).contains(port) implies 1 <= port
        <= MAX_PORTS by {
        lemma_assigned_iff_owner(i, count, port);
    }
    assert forall|i: int| 0 <= i < count implies strictly_ascending(
        #[trigger] assigned_ports(i, count),
    ) by {
        lemma_stride_ascending(i + 1, count);
    }
}

/// The port with which worker `thread_index` begins, if it has one.
pub fn first_port(thread_index: u16) -> (port: Option<u16>)
    ensures
        port == if thread_index < MAX_PORTS {
            Some((thread_index + 1) as u16)
        } else {
            None
        },
{
    if thread_index < MAX_PORTS {
        Some(thread_index + 1)
    } else {
        None
    }
}

/// The port that follows `cur_port` in a worker's stride, or `None` once the
/// stride has left the range.
pub fn next_port(cur_port: u16, num_threads: u16) -> (port: Option<u16>)
    ensures
        port == if cur_port + num_threads <= MAX_PORTS {
            Some((cur_port + num_threads) as u16)
        } else {
            None
        },
{
    if num_threads <= MAX_PORTS - cur_port {
        Some(cur_port + num_threads)
    } else {
        None
    }
}

/// All ports of worker `thread_index` of `num_threads`, in probing order.
/// Workers are counted from zero. With no workers at all, nobody has any
/// port.
pub fn worker_ports(thread_index: u16, num_threads: u16) -> (ports: Vec<u16>)
    ensures
        ports@ == assigned_ports(thread_index as int, num_threads as int),
{
    let mut ports: Vec<u16> = Vec::new();
    if num_threads == 0 {
        return ports;
    }
    let mut cursor = first_port(thread_index);
    while cursor.is_some()
        invariant
            num_threads > 0,
            cursor matches Some(p) ==> p >= 1,
            ports@ + (match cursor {
                Some(p) => stride_from(p as int, num_threads as int),
                None => Seq::empty(),
            }) == assigned_ports(thread_index as int, num_threads as int),
        decreases
            match cursor {
                Some(p) => MAX_PORTS - p + 1,
                None => 0,
            },
    {
        let port = cursor.unwrap();
        let ghost before = ports@;
        ports.push(port);
        cursor = next_port(port, num_threads);
        proof {
            let rest = stride_from(port + num_threads, num_threads as int);
            assert(stride_from(port as int, num_threads as int) == seq![port] + rest);
            assert(before + (seq![port] + rest) == before.push(port) + rest);
            if cursor is None {
                assert(rest.len() == 0);
            }
        }
    }
    ports
}

} // verus!
