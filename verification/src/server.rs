//! The server's verified core: the handle that owns the project manager and
//! the address it serves on, and the computation of that address.  Binding
//! the TCP listener or the Unix socket is the surrounding program's work.

use vstd::prelude::*;
use vstd::string::*;
use crate::manager::ProjectManager;
use crate::strutil::str_concat;

verus! {

/// The decimal digit character for `d`.
pub open spec fn digit_char(d: nat) -> char {
    if d == 0 {
        '0'
    } else if d == 1 {
        '1'
    } else if d == 2 {
        '2'
    } else if d == 3 {
        '3'
    } else if d == 4 {
        '4'
    } else if d == 5 {
        '5'
    } else if d == 6 {
        '6'
    } else if d == 7 {
        '7'
    } else if d == 8 {
        '8'
    } else {
        '9'
    }
}

/// The decimal digits of `n`, most significant first.
pub open spec fn dec_digits(n: nat) -> Seq<char>
    decreases n,
{
    if n < 10 {
        seq![digit_char(n)]
    } else {
        dec_digits(n / 10).push(digit_char(n % 10))
    }
}

fn digit_str(d: u16) -> (r: &'static str)
    requires
        d < 10,
    ensures
        r@ == seq![digit_char(d as nat)],
{
    proof {
        reveal_strlit("0");
        reveal_strlit("1");
        reveal_strlit("2");
        reveal_strlit("3");
        reveal_strlit("4");
        reveal_strlit("5");
        reveal_strlit("6");
        reveal_strlit("7");
        reveal_strlit("8");
        reveal_strlit("9");
    }
    match d {
        0 => "0",
        1 => "1",
        2 => "2",
        3 => "3",
        4 => "4",
        5 => "5",
        6 => "6",
        7 => "7",
        8 => "8",
        _ => "9",
    }
}

fn push_decimal(n: u16, out: &mut String)
    ensures
        final(out)@ == old(out)@ + dec_digits(n as nat),
    decreases n,
{
    if n < 10 {
        out.append(digit_str(n));
    } else {
        push_decimal(n / 10, out);
        out.append(digit_str(n % 10));
        proof {
            assert(out@ =~= old(out)@ + dec_digits(n as nat));
        }
    }
}

/// Renders a port number in decimal.
pub fn u16_to_decimal(n: u16) -> (r: String)
    ensures
        r@ == dec_digits(n as nat),
{
    let mut s = String::new();
    push_decimal(n, &mut s);
    proof {
        assert(s@ =~= dec_digits(n as nat));
    }
    s
}

/// The TCP address served on a port.
pub fn tcp_url(port: u16) -> (r: String)
    ensures
        r@ == "localhost:"@ + dec_digits(port as nat),
{
    let d = u16_to_decimal(port);
    str_concat("localhost:", d.as_str())
}

/// The Unix-socket path under a home directory.
pub fn socket_path(home: &str) -> (r: String)
    ensures
        r@ == home@ + "/.godata.sock"@,
{
    str_concat(home, "/.godata.sock")
}

/// The server: the project manager all requests funnel through, and the
/// address it serves on, a socket path with an optional TCP port.
pub struct Server {
    pub project_manager: ProjectManager,
    pub url: (String, Option<u16>),
}

impl Server {
    pub fn new(project_manager: ProjectManager, url: (String, Option<u16>)) -> (r: Server)
        ensures
            r.project_manager == project_manager,
            r.url == url,
    {
        Server { project_manager, url }
    }
}

} // verus!
