use vstd::prelude::*;

verus! {

/// `PING`, as a replica sends it.
pub open spec fn ping() -> Seq<u8> {
    seq!['P' as u8, 'I' as u8, 'N' as u8, 'G' as u8]
}

pub(crate) fn ping_bytes() -> (r: Vec<u8>)
    ensures
        r@ == ping(),
{
    vec!['P' as u8, 'I' as u8, 'N' as u8, 'G' as u8]
}

/// `ECHO`, as a replica sends it.
pub open spec fn echo() -> Seq<u8> {
    seq!['E' as u8, 'C' as u8, 'H' as u8, 'O' as u8]
}

pub(crate) fn echo_bytes() -> (r: Vec<u8>)
    ensures
        r@ == echo(),
{
    vec!['E' as u8, 'C' as u8, 'H' as u8, 'O' as u8]
}

/// `REPLCONF`, as a replica sends it.
pub open spec fn replconf() -> Seq<u8> {
    seq!['R' as u8, 'E' as u8, 'P' as u8, 'L' as u8, 'C' as u8, 'O' as u8, 'N' as u8, 'F' as u8]
}

pub(crate) fn replconf_bytes() -> (r: Vec<u8>)
    ensures
        r@ == replconf(),
{
    vec!['R' as u8, 'E' as u8, 'P' as u8, 'L' as u8, 'C' as u8, 'O' as u8, 'N' as u8, 'F' as u8]
}

/// `PSYNC`, as a replica sends it.
pub open spec fn psync() -> Seq<u8> {
    seq!['P' as u8, 'S' as u8, 'Y' as u8, 'N' as u8, 'C' as u8]
}

pub(crate) fn psync_bytes() -> (r: Vec<u8>)
    ensures
        r@ == psync(),
{
    vec!['P' as u8, 'S' as u8, 'Y' as u8, 'N' as u8, 'C' as u8]
}

/// `listening-port`: the `REPLCONF` option that advertises a port.
pub open spec fn listening_port() -> Seq<u8> {
    seq!['l' as u8, 'i' as u8, 's' as u8, 't' as u8, 'e' as u8, 'n' as u8, 'i' as u8, 'n' as u8, 'g' as u8, '-' as u8, 'p' as u8, 'o' as u8, 'r' as u8, 't' as u8]
}

pub(crate) fn listening_port_bytes() -> (r: Vec<u8>)
    ensures
        r@ == listening_port(),
{
    vec!['l' as u8, 'i' as u8, 's' as u8, 't' as u8, 'e' as u8, 'n' as u8, 'i' as u8, 'n' as u8, 'g' as u8, '-' as u8, 'p' as u8, 'o' as u8, 'r' as u8, 't' as u8]
}

/// `capa`: the `REPLCONF` option that advertises a capability.
pub open spec fn capa() -> Seq<u8> {
    seq!['c' as u8, 'a' as u8, 'p' as u8, 'a' as u8]
}

pub(crate) fn capa_bytes() -> (r: Vec<u8>)
    ensures
        r@ == capa(),
{
    vec!['c' as u8, 'a' as u8, 'p' as u8, 'a' as u8]
}

/// `psync2`: the one capability a replica advertises.
pub open spec fn psync2() -> Seq<u8> {
    seq!['p' as u8, 's' as u8, 'y' as u8, 'n' as u8, 'c' as u8, '2' as u8]
}

pub(crate) fn psync2_bytes() -> (r: Vec<u8>)
    ensures
        r@ == psync2(),
{
    vec!['p' as u8, 's' as u8, 'y' as u8, 'n' as u8, 'c' as u8, '2' as u8]
}

/// `?`: the replication id that stands for none.
pub open spec fn unknown_id() -> Seq<u8> {
    seq!['?' as u8]
}

pub(crate) fn unknown_id_bytes() -> (r: Vec<u8>)
    ensures
        r@ == unknown_id(),
{
    vec!['?' as u8]
}

/// `-1`: the replication offset that stands for none.
pub open spec fn unknown_offset() -> Seq<u8> {
    seq!['-' as u8, '1' as u8]
}

pub(crate) fn unknown_offset_bytes() -> (r: Vec<u8>)
    ensures
        r@ == unknown_offset(),
{
    vec!['-' as u8, '1' as u8]
}

/// `ping`: command name, lower case.
pub open spec fn name_ping() -> Seq<u8> {
    seq!['p' as u8, 'i' as u8, 'n' as u8, 'g' as u8]
}

pub(crate) fn name_ping_bytes() -> (r: Vec<u8>)
    ensures
        r@ == name_ping(),
{
    vec!['p' as u8, 'i' as u8, 'n' as u8, 'g' as u8]
}

/// `echo`: command name, lower case.
pub open spec fn name_echo() -> Seq<u8> {
    seq!['e' as u8, 'c' as u8, 'h' as u8, 'o' as u8]
}

pub(crate) fn name_echo_bytes() -> (r: Vec<u8>)
    ensures
        r@ == name_echo(),
{
    vec!['e' as u8, 'c' as u8, 'h' as u8, 'o' as u8]
}

/// `set`: command name, lower case.
pub open spec fn name_set() -> Seq<u8> {
    seq!['s' as u8, 'e' as u8, 't' as u8]
}

pub(crate) fn name_set_bytes() -> (r: Vec<u8>)
    ensures
        r@ == name_set(),
{
    vec!['s' as u8, 'e' as u8, 't' as u8]
}

/// `get`: command name, lower case.
pub open spec fn name_get() -> Seq<u8> {
    seq!['g' as u8, 'e' as u8, 't' as u8]
}

pub(crate) fn name_get_bytes() -> (r: Vec<u8>)
    ensures
        r@ == name_get(),
{
    vec!['g' as u8, 'e' as u8, 't' as u8]
}

/// `info`: command name, lower case.
pub open spec fn name_info() -> Seq<u8> {
    seq!['i' as u8, 'n' as u8, 'f' as u8, 'o' as u8]
}

pub(crate) fn name_info_bytes() -> (r: Vec<u8>)
    ensures
        r@ == name_info(),
{
    vec!['i' as u8, 'n' as u8, 'f' as u8, 'o' as u8]
}

/// `replconf`: command name, lower case.
pub open spec fn name_replconf() -> Seq<u8> {
    seq!['r' as u8, 'e' as u8, 'p' as u8, 'l' as u8, 'c' as u8, 'o' as u8, 'n' as u8, 'f' as u8]
}

pub(crate) fn name_replconf_bytes() -> (r: Vec<u8>)
    ensures
        r@ == name_replconf(),
{
    vec!['r' as u8, 'e' as u8, 'p' as u8, 'l' as u8, 'c' as u8, 'o' as u8, 'n' as u8, 'f' as u8]
}

/// `psync`: command name, lower case.
pub open spec fn name_psync() -> Seq<u8> {
    seq!['p' as u8, 's' as u8, 'y' as u8, 'n' as u8, 'c' as u8]
}

pub(crate) fn name_psync_bytes() -> (r: Vec<u8>)
    ensures
        r@ == name_psync(),
{
    vec!['p' as u8, 's' as u8, 'y' as u8, 'n' as u8, 'c' as u8]
}

/// `px`: the `SET` option that gives a time to live in milliseconds.
pub open spec fn px() -> Seq<u8> {
    seq!['p' as u8, 'x' as u8]
}

pub(crate) fn px_bytes() -> (r: Vec<u8>)
    ensures
        r@ == px(),
{
    vec!['p' as u8, 'x' as u8]
}

/// `replication`: the one `INFO` section, lower case.
pub open spec fn replication() -> Seq<u8> {
    seq!['r' as u8, 'e' as u8, 'p' as u8, 'l' as u8, 'i' as u8, 'c' as u8, 'a' as u8, 't' as u8, 'i' as u8, 'o' as u8, 'n' as u8]
}

pub(crate) fn replication_bytes() -> (r: Vec<u8>)
    ensures
        r@ == replication(),
{
    vec!['r' as u8, 'e' as u8, 'p' as u8, 'l' as u8, 'i' as u8, 'c' as u8, 'a' as u8, 't' as u8, 'i' as u8, 'o' as u8, 'n' as u8]
}

/// `PONG`: the reply to a `PING` without a payload.
pub open spec fn pong() -> Seq<u8> {
    seq!['P' as u8, 'O' as u8, 'N' as u8, 'G' as u8]
}

pub(crate) fn pong_bytes() -> (r: Vec<u8>)
    ensures
        r@ == pong(),
{
    vec!['P' as u8, 'O' as u8, 'N' as u8, 'G' as u8]
}

/// `OK`: the reply to `SET` and `REPLCONF`.
pub open spec fn ok() -> Seq<u8> {
    seq!['O' as u8, 'K' as u8]
}

pub(crate) fn ok_bytes() -> (r: Vec<u8>)
    ensures
        r@ == ok(),
{
    vec!['O' as u8, 'K' as u8]
}

} // verus!
