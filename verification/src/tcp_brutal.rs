//! TCP Brutal: a congestion control that sends at a fixed rate.

use vstd::prelude::*;

use crate::error::{AnyTlsError, ErrorView, Result};
use crate::wire::{be_bytes, bytes_count_from_the_end, lemma_be_bytes_len, pow256, push_be};

verus! {

/// The rate in bytes per second, and the gain of the congestion window in tenths.
#[derive(Clone, Copy, Debug, PartialEq, Eq, Structural)]
pub struct TcpBrutalConfig {
    pub rate: u64,
    pub cwnd_gain: u32,
}

/// Settings with this rate and gain, of which neither may be zero.
pub open spec fn brutal_of(rate: u64, cwnd_gain: u32) -> core::result::Result<TcpBrutalConfig, ErrorView> {
    if rate == 0 {
        Err(ErrorView::Protocol("tcp brutal rate must be greater than 0"@))
    } else if cwnd_gain == 0 {
        Err(ErrorView::Protocol("tcp brutal cwnd gain must be greater than 0"@))
    } else {
        Ok(TcpBrutalConfig { rate, cwnd_gain })
    }
}

impl TcpBrutalConfig {
    pub fn new(rate: u64, cwnd_gain: u32) -> (config: Result<Self>)
        ensures
            match config {
                Ok(config) => brutal_of(rate, cwnd_gain) == Ok::<TcpBrutalConfig, ErrorView>(config),
                Err(err) => brutal_of(rate, cwnd_gain) == Err::<TcpBrutalConfig, ErrorView>(err@),
            },
    {
        if rate == 0 {
            return Err(AnyTlsError::protocol("tcp brutal rate must be greater than 0"));
        }
        if cwnd_gain == 0 {
            return Err(AnyTlsError::protocol("tcp brutal cwnd gain must be greater than 0"));
        }
        Ok(TcpBrutalConfig { rate, cwnd_gain })
    }
}

/// The `n` low bytes of `x` in one of the two orders in which machines hold them.
pub open spec fn ordered_bytes(x: nat, n: nat, little_endian: bool) -> Seq<u8> {
    if little_endian {
        be_bytes(x, n).reverse()
    } else {
        be_bytes(x, n)
    }
}

/// The parameters as the kernel takes them: the rate, then the gain.
pub open spec fn params_of(config: TcpBrutalConfig, little_endian: bool) -> Seq<u8> {
    ordered_bytes(config.rate as nat, 8, little_endian) + ordered_bytes(config.cwnd_gain as nat, 4, little_endian)
}

/// Calls `u16::to_ne_bytes` on the number one. Its two bytes come in the order in which this
/// machine holds them, which is one of the two.
#[verifier::external_body]
fn native_one() -> (bytes: [u8; 2])
    ensures
        bytes@ == seq![0u8, 1u8] || bytes@ == seq![1u8, 0u8],
{
    1u16.to_ne_bytes()
}

fn push_ordered(out: &mut Vec<u8>, x: u64, n: usize, little_endian: bool)
    ensures
        final(out)@ == old(out)@ + ordered_bytes(x as nat, n as nat, little_endian),
{
    if !little_endian {
        push_be(out, x as u128, n);
        return;
    }
    let mut bytes: Vec<u8> = Vec::new();
    push_be(&mut bytes, x as u128, n);
    proof {
        lemma_be_bytes_len(x as nat, n as nat);
    }
    assert(bytes@ =~= be_bytes(x as nat, n as nat));
    let mut i: usize = 0;
    assert(out@ =~= old(out)@ + bytes@.reverse().take(0));
    while i < n
        invariant
            i <= n,
            bytes@.len() == n,
            out@ == old(out)@ + bytes@.reverse().take(i as int),
        decreases n - i,
    {
        out.push(bytes[n - 1 - i]);
        i = i + 1;
        assert(out@ =~= old(out)@ + bytes@.reverse().take(i as int));
    }
    assert(bytes@.reverse().take(n as int) =~= bytes@.reverse());
}

/// The parameters in this byte order.
pub fn brutal_params_in_order(config: TcpBrutalConfig, little_endian: bool) -> (bytes: [u8; 12])
    ensures
        bytes@ == params_of(config, little_endian),
{
    let mut out: Vec<u8> = Vec::new();
    push_ordered(&mut out, config.rate, 8, little_endian);
    push_ordered(&mut out, config.cwnd_gain as u64, 4, little_endian);
    proof {
        lemma_be_bytes_len(config.rate as nat, 8);
        lemma_be_bytes_len(config.cwnd_gain as nat, 4);
    }
    let bytes = [
        out[0],
        out[1],
        out[2],
        out[3],
        out[4],
        out[5],
        out[6],
        out[7],
        out[8],
        out[9],
        out[10],
        out[11],
    ];
    assert(bytes@ =~= params_of(config, little_endian));
    bytes
}

/// The parameters in the byte order in which a machine holds the number one like this.
pub fn brutal_params_for(config: TcpBrutalConfig, one: [u8; 2]) -> (bytes: [u8; 12])
    requires
        one@ == seq![0u8, 1u8] || one@ == seq![1u8, 0u8],
    ensures
        bytes@ == params_of(config, one@ == seq![1u8, 0u8]),
{
    assert(seq![0u8, 1u8][0] == 0 && seq![1u8, 0u8][0] == 1);
    brutal_params_in_order(config, one[0] == 1)
}

/// The parameters in this machine's byte order.
pub fn brutal_params_bytes(config: TcpBrutalConfig) -> (bytes: [u8; 12])
    ensures
        bytes@ == params_of(config, true) || bytes@ == params_of(config, false),
{
    brutal_params_for(config, native_one())
}

/// A machine holds the bytes of a number in the order of big numbers, or in the opposite order.
pub proof fn orders_are_opposite(x: nat, n: nat, i: int)
    requires
        0 <= i < n,
    ensures
        ordered_bytes(x, n, true).len() == n,
        ordered_bytes(x, n, false).len() == n,
        ordered_bytes(x, n, false)[i] == (x / pow256((n - 1 - i) as nat)) % 256,
        ordered_bytes(x, n, true)[i] == (x / pow256(i as nat)) % 256,
{
    bytes_count_from_the_end(x, n, i);
    bytes_count_from_the_end(x, n, n - 1 - i);
}

/// The parameters are the rate in eight bytes and the gain in four.
pub proof fn parameters_have_this_layout(config: TcpBrutalConfig, little_endian: bool)
    ensures
        params_of(config, little_endian).len() == 12,
        params_of(config, little_endian).take(8) == ordered_bytes(config.rate as nat, 8, little_endian),
        params_of(config, little_endian).skip(8) == ordered_bytes(config.cwnd_gain as nat, 4, little_endian),
{
    lemma_be_bytes_len(config.rate as nat, 8);
    lemma_be_bytes_len(config.cwnd_gain as nat, 4);
    let params = params_of(config, little_endian);
    assert(params.take(8) =~= ordered_bytes(config.rate as nat, 8, little_endian));
    assert(params.skip(8) =~= ordered_bytes(config.cwnd_gain as nat, 4, little_endian));
}

/// Every rate and every gain will do, but zero.
pub proof fn rates_and_gains_are_above_zero(rate: u64, cwnd_gain: u32)
    ensures
        rate > 0 && cwnd_gain > 0 ==> brutal_of(rate, cwnd_gain) == Ok::<TcpBrutalConfig, ErrorView>(
            TcpBrutalConfig { rate, cwnd_gain },
        ),
        rate == 0 || cwnd_gain == 0 ==> brutal_of(rate, cwnd_gain) is Err,
{
}

} // verus!
