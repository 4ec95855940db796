//! The command line: which mode to run, and what a server listens on.

use vstd::prelude::*;

use crate::text::{after_prefix, strip_prefix, texts};

verus! {

/// Which mode to run.
#[derive(Clone, Copy, Debug, PartialEq, Eq, Structural)]
pub enum Mode {
    /// Public WebSocket hub that pairs targets and mcp clients.
    Server,
    /// Remote agent: runs on the machine you want shell + filesystem access to.
    Target,
    /// Local MCP server: exposes the target as MCP tools.
    Mcp,
    /// Remote HTTP MCP server with OAuth support.
    Http,
}

/// The mode of a name.
pub open spec fn mode_named(name: Seq<char>) -> Option<Mode> {
    if name == "server"@ {
        Some(Mode::Server)
    } else if name == "target"@ {
        Some(Mode::Target)
    } else if name == "mcp"@ {
        Some(Mode::Mcp)
    } else if name == "http"@ {
        Some(Mode::Http)
    } else {
        None
    }
}

/// The mode of a name.
pub fn mode_of(name: &str) -> (res: Option<Mode>)
    ensures
        res == mode_named(name@),
        name@ == "server"@ ==> res == Some(Mode::Server),
        name@ == "target"@ ==> res == Some(Mode::Target),
        name@ == "mcp"@ ==> res == Some(Mode::Mcp),
        name@ == "http"@ ==> res == Some(Mode::Http),
        res is Some ==> name@ == "server"@ || name@ == "target"@ || name@ == "mcp"@ || name@
            == "http"@,
{
    proof {
        lemma_mode_names_differ();
    }
    if *name == *"server" {
        Some(Mode::Server)
    } else if *name == *"target" {
        Some(Mode::Target)
    } else if *name == *"mcp" {
        Some(Mode::Mcp)
    } else if *name == *"http" {
        Some(Mode::Http)
    } else {
        None
    }
}

/// What is left of the arguments, and the mode that they name: the last
/// `--mode <value>` or `--mode=<value>` counts, and `mode` where there is none.
/// A `--mode` without a value is left.
pub open spec fn without_mode(args: Seq<Seq<char>>, mode: Option<Mode>) -> (
    Option<Mode>,
    Seq<Seq<char>>,
)
    decreases args.len(),
{
    if args.len() == 0 {
        (mode, args)
    } else if args[0] == "--mode"@ && args.len() > 1 {
        without_mode(args.skip(2), mode_named(args[1]))
    } else if args[0] != "--mode"@ && after_prefix(args[0], "--mode="@) is Some {
        without_mode(args.skip(1), mode_named(after_prefix(args[0], "--mode="@)->0))
    } else {
        let (named, left) = without_mode(args.skip(1), mode);
        (named, seq![args[0]] + left)
    }
}

/// Splits the mode off the command line, so that the mode's own arguments are
/// left. What the program is called stays first.
pub fn split_mode(argv: &Vec<String>) -> (res: (Option<Mode>, Vec<String>))
    requires
        argv@.len() > 0,
    ensures
        res.0 == without_mode(texts(argv@).skip(1), None).0,
        texts(res.1@) == seq![argv@[0]@] + without_mode(texts(argv@).skip(1), None).1,
{
    let ghost all = texts(argv@);
    let ghost whole = without_mode(all.skip(1), None);
    let mut mode: Option<Mode> = None;
    let mut rest: Vec<String> = Vec::new();
    rest.push(argv[0].clone());
    let mut i: usize = 1;
    assert(texts(rest@) + without_mode(all.skip(1), mode).1 =~= seq![argv@[0]@] + whole.1);
    while i < argv.len()
        invariant
            i <= argv@.len(),
            argv@.len() > 0,
            all == texts(argv@),
            whole == without_mode(all.skip(1), None),
            without_mode(all.skip(i as int), mode).0 == whole.0,
            texts(rest@) + without_mode(all.skip(i as int), mode).1 == seq![argv@[0]@] + whole.1,
        decreases argv@.len() - i,
    {
        let ghost left = all.skip(i as int);
        let ghost had = rest@;
        proof {
            assert(left[0] == argv@[i as int]@);
            assert(left.skip(1) =~= all.skip(i + 1));
        }
        if *argv[i].as_str() == *"--mode" {
            if i + 1 < argv.len() {
                proof {
                    assert(left[1] == argv@[i + 1]@);
                    assert(left.skip(2) =~= all.skip(i + 2));
                }
                mode = mode_of(argv[i + 1].as_str());
                i += 2;
                continue;
            }
        } else if let Some(v) = strip_prefix(argv[i].as_str(), "--mode=") {
            mode = mode_of(v.as_str());
            i += 1;
            continue;
        }
        rest.push(argv[i].clone());
        proof {
            let tail = without_mode(all.skip(i + 1), mode).1;
            assert(texts(rest@) + tail =~= texts(had) + (seq![left[0]] + tail));
        }
        i += 1;
    }
    proof {
        assert(all.skip(i as int) =~= Seq::<Seq<char>>::empty());
        assert(texts(rest@) + Seq::<Seq<char>>::empty() =~= texts(rest@));
    }
    (mode, rest)
}

/// What follows the last `c`.
pub open spec fn after_last(s: Seq<char>, c: char) -> Option<Seq<char>>
    decreases s.len(),
{
    if s.len() == 0 {
        None
    } else if s.last() == c {
        Some(Seq::empty())
    } else {
        match after_last(s.drop_last(), c) {
            Some(rest) => Some(rest.push(s.last())),
            None => None,
        }
    }
}

/// The port of an address to listen on.
pub open spec fn port_of(listen: Seq<char>) -> Seq<char> {
    match after_last(listen, ':') {
        Some(port) => port,
        None => "8787"@,
    }
}

fn port(listen: &str) -> (res: String)
    ensures
        res@ == port_of(listen@),
{
    let n: usize = listen.unicode_len();
    let mut i: usize = 0;
    let mut found: Option<String> = None;
    assert(listen@.take(0) =~= Seq::<char>::empty());
    while i < n
        invariant
            i <= n,
            n == listen@.len(),
            match found {
                Some(t) => after_last(listen@.take(i as int), ':') == Some(t@),
                None => after_last(listen@.take(i as int), ':') is None,
            },
        decreases n - i,
    {
        assert(listen@.take(i + 1).drop_last() =~= listen@.take(i as int));
        let c = listen.get_char(i);
        if c == ':' {
            found = Some(String::new());
            assert(found->0@ =~= Seq::<char>::empty());
        } else if let Some(mut t) = found {
            t.push(c);
            found = Some(t);
        } else {
            found = None;
        }
        i += 1;
    }
    assert(listen@.take(n as int) =~= listen@);
    match found {
        Some(t) => t,
        None => "8787".to_owned(),
    }
}

/// The address of a relay on this machine.
pub fn local_url(port: &str) -> (res: String)
    ensures
        res@ == "ws://127.0.0.1:"@ + port@,
{
    let mut url = "ws://127.0.0.1:".to_owned();
    url.append(port);
    url
}

/// Where a relay that listens on `listen` is asked to serve MCP on another
/// address, that address and the relay's own.
pub fn separate_http(listen: &str, http_listen: Option<&str>) -> (res: Option<(String, String)>)
    ensures
        match res {
            Some((address, url)) => {
                &&& http_listen is Some
                &&& http_listen->0@ != listen@
                &&& address@ == http_listen->0@
                &&& url@ == "ws://127.0.0.1:"@ + port_of(listen@)
            },
            None => http_listen is None || http_listen->0@ == listen@,
        },
{
    match http_listen {
        Some(address) => if *address != *listen {
            Some((address.to_owned(), local_url(port(listen).as_str())))
        } else {
            None
        },
        None => None,
    }
}

/// Arguments that name no mode are all left.
pub proof fn lemma_other_arguments_are_left(args: Seq<Seq<char>>, mode: Option<Mode>)
    requires
        forall|i: int|
            0 <= i < args.len() ==> (#[trigger] args[i]) != "--mode"@ && after_prefix(
                args[i],
                "--mode="@,
            ) is None,
    ensures
        without_mode(args, mode) == (mode, args),
    decreases args.len(),
{
    if args.len() > 0 {
        let tail = args.skip(1);
        assert forall|i: int| 0 <= i < tail.len() implies (#[trigger] tail[i]) != "--mode"@
            && after_prefix(tail[i], "--mode="@) is None by {
            assert(tail[i] == args[i + 1]);
        }
        lemma_other_arguments_are_left(tail, mode);
        assert(seq![args[0]] + tail =~= args);
    }
}

/// The names of the modes differ.
proof fn lemma_mode_names_differ()
    ensures
        "server"@ != "target"@,
        "server"@ != "mcp"@,
        "server"@ != "http"@,
        "target"@ != "mcp"@,
        "target"@ != "http"@,
        "mcp"@ != "http"@,
{
    reveal_strlit("server");
    reveal_strlit("target");
    reveal_strlit("mcp");
    reveal_strlit("http");
    assert("server"@[0] == 's' && "target"@[0] == 't');
    assert("server"@.len() == 6 && "target"@.len() == 6 && "mcp"@.len() == 3 && "http"@.len() == 4);
}

/// The argument names no mode.
pub open spec fn is_plain_argument(arg: Seq<char>) -> bool {
    arg != "--mode"@ && after_prefix(arg, "--mode="@) is None
}

/// Arguments that name no mode stand before what is left of the others.
proof fn lemma_plain_arguments_stay(
    before: Seq<Seq<char>>,
    tail: Seq<Seq<char>>,
    mode: Option<Mode>,
)
    requires
        forall|i: int| 0 <= i < before.len() ==> is_plain_argument(#[trigger] before[i]),
    ensures
        without_mode(before + tail, mode).0 == without_mode(tail, mode).0,
        without_mode(before + tail, mode).1 == before + without_mode(tail, mode).1,
    decreases before.len(),
{
    let all = before + tail;
    if before.len() == 0 {
        assert(all =~= tail);
        assert(before + without_mode(tail, mode).1 =~= without_mode(tail, mode).1);
    } else {
        let rest = before.skip(1);
        assert forall|i: int| 0 <= i < rest.len() implies is_plain_argument(
            #[trigger] rest[i],
        ) by {
            assert(rest[i] == before[i + 1]);
        }
        lemma_plain_arguments_stay(rest, tail, mode);
        assert(all.skip(1) =~= rest + tail);
        assert(is_plain_argument(before[0]));
        assert(all[0] == before[0]);
        assert(seq![before[0]] + (rest + without_mode(tail, mode).1) =~= before + without_mode(
            tail,
            mode,
        ).1);
    }
}

/// The mode is split off wherever it stands, in either form, and nothing else is:
/// what stands before and after it is left as it was. Where two are given the
/// last one counts, and a `--mode` at the end, which names none, is left.
pub proof fn lemma_mode_is_split_off(
    before: Seq<Seq<char>>,
    first: Seq<char>,
    between: Seq<Seq<char>>,
    second: Seq<char>,
    after: Seq<Seq<char>>,
    mode: Option<Mode>,
)
    requires
        forall|i: int| 0 <= i < before.len() ==> is_plain_argument(#[trigger] before[i]),
        forall|i: int| 0 <= i < between.len() ==> is_plain_argument(#[trigger] between[i]),
        forall|i: int| 0 <= i < after.len() ==> is_plain_argument(#[trigger] after[i]),
    ensures
        without_mode(before + seq!["--mode"@, first] + after, mode) == (
            mode_named(first),
            before + after,
        ),
        without_mode(before + seq!["--mode="@ + first] + after, mode) == (
            mode_named(first),
            before + after,
        ),
        without_mode(
            before + seq!["--mode"@, first] + (between + (seq!["--mode="@ + second] + after)),
            mode,
        ) == (mode_named(second), before + (between + after)),
        without_mode(before + seq!["--mode"@], mode) == (mode, before + seq!["--mode"@]),
{
    reveal_strlit("--mode");
    reveal_strlit("--mode=");
    assert("--mode="@.len() == 7 && "--mode"@.len() == 6);
    let m = mode_named(first);
    let n = mode_named(second);
    let two = "--mode="@ + second;
    let one = "--mode="@ + first;
    assert(one.subrange(0, 7) =~= "--mode="@ && one.skip(7) =~= first);
    assert(two.subrange(0, 7) =~= "--mode="@ && two.skip(7) =~= second);
    assert(one.len() >= 7 && two.len() >= 7);
    lemma_other_arguments_are_left(after, m);
    lemma_other_arguments_are_left(after, n);
    let x = seq!["--mode"@, first] + after;
    assert(x.skip(2) =~= after);
    assert(before + seq!["--mode"@, first] + after =~= before + x);
    lemma_plain_arguments_stay(before, x, mode);
    let y = seq![one] + after;
    assert(y.skip(1) =~= after);
    assert(before + seq![one] + after =~= before + y);
    lemma_plain_arguments_stay(before, y, mode);
    let z = seq![two] + after;
    assert(z.skip(1) =~= after);
    lemma_plain_arguments_stay(between, z, m);
    let w = seq!["--mode"@, first] + (between + z);
    assert(w.skip(2) =~= between + z);
    assert(before + seq!["--mode"@, first] + (between + z) =~= before + w);
    lemma_plain_arguments_stay(before, w, mode);
    let e = seq!["--mode"@];
    assert(e.skip(1) =~= Seq::<Seq<char>>::empty());
    assert(without_mode(e.skip(1), mode) == (mode, e.skip(1)));
    assert(seq![e[0]] + e.skip(1) =~= e);
    lemma_plain_arguments_stay(before, e, mode);
}

/// What follows the last `:` where none follows it, and where there is none.
proof fn lemma_after_last(host: Seq<char>, port: Seq<char>)
    requires
        !port.contains(':'),
    ensures
        after_last(host + seq![':'] + port, ':') == Some(port),
        after_last(port, ':') is None,
    decreases port.len(),
{
    let listen = host + seq![':'] + port;
    if port.len() > 0 {
        let less = port.drop_last();
        assert forall|i: int| 0 <= i < less.len() implies less[i] != ':' by {
            assert(port[i] == less[i]);
            assert(port.contains(port[i]));
        }
        assert(port.contains(port[port.len() - 1]));
        lemma_after_last(host, less);
        assert(listen.drop_last() =~= host + seq![':'] + less);
        assert(listen.last() == port.last());
        assert(less.push(port.last()) =~= port);
    } else {
        assert(listen.last() == ':');
        assert(port =~= Seq::<char>::empty());
    }
}

/// The port is what stands behind the last `:` of the address, and 8787 where
/// there is none.
pub proof fn lemma_port_follows_the_last_colon(host: Seq<char>, port: Seq<char>)
    requires
        !port.contains(':'),
    ensures
        port_of(host + seq![':'] + port) == port,
        port_of(port) == "8787"@,
{
    lemma_after_last(host, port);
}

} // verus!
