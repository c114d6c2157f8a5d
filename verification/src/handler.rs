//! Commands: a request is an array frame whose first element names the command.
use crate::frame::{
    bytes_as_slice, error_debug, lemma_frames_view, reply_view, Error, ErrorView, Frame, FrameView,
};
use crate::store::{hset_ok, spec_get, spec_hget, spec_hset, Store};
use crate::text::{ascii_uppercase, lossy_utf8, to_uppercase, uppercase, utf8_lossy};
use vstd::utf8::is_ascii_chars;
use vstd::prelude::*;

verus! {

/// The map of keys to values that commands act on.
pub type Keyspace = Map<Seq<char>, FrameView>;

/// The text of a frame that may name a command, a key or a field: a simple
/// string, or a bulk string read as UTF-8.
pub open spec fn frame_text(f: FrameView) -> Option<Seq<char>> {
    match f {
        FrameView::Simple(s) => Some(s),
        FrameView::Bulk(b) => Some(lossy_utf8(b)),
        _ => None,
    }
}

/// Whether a request names `SET` or `HSET`, in any case: the commands that
/// change the keyspace.
pub open spec fn is_write_command(request: FrameView) -> bool {
    match request {
        FrameView::Array(fs) => fs.len() > 0 && match frame_text(fs[0]) {
            Some(name) => uppercase(name) == "SET"@ || uppercase(name) == "HSET"@,
            None => false,
        },
        _ => false,
    }
}

/// A reply that reports a failure to the client, leaving the keyspace alone.
pub open spec fn refuse(msg: Seq<char>, m: Keyspace) -> (Result<FrameView, ErrorView>, Keyspace) {
    (Ok(FrameView::Error(msg)), m)
}

pub open spec fn ok_reply() -> Result<FrameView, ErrorView> {
    Ok(FrameView::Simple("OK"@))
}

/// `SET key value`.
pub open spec fn spec_set_command(args: FrameView, m: Keyspace) -> (
    Result<FrameView, ErrorView>,
    Keyspace,
) {
    match args {
        FrameView::Array(fs) => if fs.len() != 3 {
            refuse("Err wrong number of arguments for 'set' command"@, m)
        } else {
            match frame_text(fs[1]) {
                None => refuse("ERR key must be a string"@, m),
                Some(k) => (ok_reply(), m.insert(k, fs[2])),
            }
        },
        _ => refuse("Err invalid args "@, m),
    }
}

/// `GET key`.
pub open spec fn spec_get_command(args: FrameView, m: Keyspace) -> (
    Result<FrameView, ErrorView>,
    Keyspace,
) {
    match args {
        FrameView::Array(fs) => if fs.len() != 2 {
            refuse("ERR wrong number of arguments for 'get' command"@, m)
        } else {
            match frame_text(fs[1]) {
                None => refuse("ERR key must be a string"@, m),
                Some(k) => (
                    match spec_get(m, k) {
                        Ok(Some(v)) => Ok(v),
                        Ok(None) => Ok(FrameView::Null),
                        Err(e) => Ok(FrameView::Error(error_debug(e))),
                    },
                    m,
                ),
            }
        },
        _ => refuse("ERR Invalid args"@, m),
    }
}

/// `HSET key field value`.
pub open spec fn spec_hset_command(args: FrameView, m: Keyspace) -> (
    Result<FrameView, ErrorView>,
    Keyspace,
) {
    match args {
        FrameView::Array(fs) => if fs.len() != 4 {
            refuse("Err wrong number of arguments to 'hset' command"@, m)
        } else {
            match frame_text(fs[1]) {
                None => refuse("ERR key must be a string"@, m),
                Some(k) => match frame_text(fs[2]) {
                    None => refuse("ERR field must be a string"@, m),
                    Some(f) => if hset_ok(m, k) {
                        (ok_reply(), spec_hset(m, k, f, fs[3]))
                    } else {
                        refuse("ERR invalid field or key"@, m)
                    },
                },
            }
        },
        _ => refuse("Err Invalid args"@, m),
    }
}

/// `HGET key field`.
pub open spec fn spec_hget_command(args: FrameView, m: Keyspace) -> (
    Result<FrameView, ErrorView>,
    Keyspace,
) {
    match args {
        FrameView::Array(fs) => if fs.len() != 3 {
            refuse("Err wrong number of arguments for 'hget' command"@, m)
        } else {
            match frame_text(fs[1]) {
                None => refuse("ERR key must be a string"@, m),
                Some(k) => match frame_text(fs[2]) {
                    None => refuse("ERR field must be a string"@, m),
                    Some(f) => (
                        match spec_hget(m, k, f) {
                            Ok(Some(v)) => Ok(v),
                            Ok(None) => Ok(FrameView::Null),
                            Err(e) => Ok(FrameView::Error(error_debug(e))),
                        },
                        m,
                    ),
                },
            }
        },
        _ => refuse("Err Invalid args"@, m),
    }
}

/// The reply to a request whose command name is `name`, upper-cased as `cmd`,
/// and the keyspace after it.
pub open spec fn spec_dispatch(cmd: Seq<char>, name: Seq<char>, args: FrameView, m: Keyspace) -> (
    Result<FrameView, ErrorView>,
    Keyspace,
) {
    if cmd == "SET"@ {
        spec_set_command(args, m)
    } else if cmd == "GET"@ {
        spec_get_command(args, m)
    } else if cmd == "HSET"@ {
        spec_hset_command(args, m)
    } else if cmd == "HGET"@ {
        spec_hget_command(args, m)
    } else if cmd == "PING"@ {
        (Ok(FrameView::Simple("PONG"@)), m)
    } else {
        refuse("ERR unknown command '"@ + name + "'"@, m)
    }
}

/// The command name of a request: the text of the first element of an array.
pub open spec fn command_name(args: FrameView) -> Option<Seq<char>> {
    match args {
        FrameView::Array(fs) => if fs.len() == 0 {
            None
        } else {
            frame_text(fs[0])
        },
        _ => None,
    }
}

/// The reply to a request and the keyspace after it.
pub open spec fn spec_execute(args: FrameView, m: Keyspace) -> (
    Result<FrameView, ErrorView>,
    Keyspace,
) {
    match args {
        FrameView::Array(fs) => if fs.len() == 0 {
            refuse("ERR PROTOCOL ERROR: expected array with at least one element"@, m)
        } else {
            match frame_text(fs[0]) {
                None => refuse("ERR command name must be a string "@, m),
                Some(name) => spec_dispatch(uppercase(name), name, args, m),
            }
        },
        _ => refuse("ERR PROTOCOL ERROR: expected array"@, m),
    }
}

fn error_frame(msg: &str) -> (f: Frame)
    ensures
        f@ == FrameView::Error(msg@),
{
    Frame::Error(msg.to_owned())
}

/// Runs one request against the store. A command name made of ASCII
/// characters is upper-cased letter by letter, so its spelling's case does
/// not matter.
pub fn execute_command(args: &Frame, store: &mut Store) -> (r: Result<Frame, Error>)
    ensures
        r is Ok,
        (reply_view(r), final(store)@) == spec_execute(args@, old(store)@),
        command_name(args@) is Some && is_ascii_chars(command_name(args@)->0) ==> (
        reply_view(r),
        final(store)@,
        ) == spec_dispatch(
            ascii_uppercase(command_name(args@)->0),
            command_name(args@)->0,
            args@,
            old(store)@,
        ),
{
    match args {
        Frame::Array(frames) => {
            proof {
                lemma_frames_view(frames@);
            }
            if frames.len() == 0 {
                return Ok(error_frame("ERR PROTOCOL ERROR: expected array with at least one element"));
            }
            let cmd_name = match to_string(&frames[0]) {
                Some(s) => s,
                None => {
                    return Ok(error_frame("ERR command name must be a string "));
                },
            };
            let cmd = to_uppercase(cmd_name.as_str());
            dispatch(cmd.as_str(), cmd_name.as_str(), args, store)
        },
        _ => Ok(error_frame("ERR PROTOCOL ERROR: expected array")),
    }
}

/// Runs a request whose command name is `name`, upper-cased as `cmd`.
pub fn dispatch(cmd: &str, name: &str, args: &Frame, store: &mut Store) -> (r: Result<Frame, Error>)
    ensures
        r is Ok,
        (reply_view(r), final(store)@) == spec_dispatch(cmd@, name@, args@, old(store)@),
{
    let cmd = cmd.to_owned();
    if cmd == "SET".to_owned() {
        set(args, store)
    } else if cmd == "GET".to_owned() {
        get(args, store)
    } else if cmd == "HSET".to_owned() {
        hset(args, store)
    } else if cmd == "HGET".to_owned() {
        hget(args, store)
    } else if cmd == "PING".to_owned() {
        Ok(Frame::Simple("PONG".to_owned()))
    } else {
        let mut msg = "ERR unknown command '".to_owned();
        msg.append(name);
        msg.append("'");
        Ok(Frame::Error(msg))
    }
}

fn set(args: &Frame, store: &mut Store) -> (r: Result<Frame, Error>)
    ensures
        (reply_view(r), final(store)@) == spec_set_command(args@, old(store)@),
{
    match args {
        Frame::Array(frames) => {
            proof {
                lemma_frames_view(frames@);
            }
            if frames.len() != 3 {
                return Ok(error_frame("Err wrong number of arguments for 'set' command"));
            }
            let key = match to_string(&frames[1]) {
                Some(k) => k,
                None => {
                    return Ok(error_frame("ERR key must be a string"));
                },
            };
            store.set(key, frames[2].clone());
            Ok(Frame::Simple("OK".to_owned()))
        },
        _ => Ok(error_frame("Err invalid args ")),
    }
}

fn get(args: &Frame, store: &mut Store) -> (r: Result<Frame, Error>)
    ensures
        (reply_view(r), final(store)@) == spec_get_command(args@, old(store)@),
{
    match args {
        Frame::Array(frames) => {
            proof {
                lemma_frames_view(frames@);
            }
            if frames.len() != 2 {
                return Ok(error_frame("ERR wrong number of arguments for 'get' command"));
            }
            let key = match to_string(&frames[1]) {
                Some(k) => k,
                None => {
                    return Ok(error_frame("ERR key must be a string"));
                },
            };
            match store.get(key.as_str()) {
                Ok(Some(v)) => Ok(v),
                Ok(None) => Ok(Frame::Null),
                Err(e) => Ok(Frame::Error(e.debug_text())),
            }
        },
        _ => Ok(error_frame("ERR Invalid args")),
    }
}

fn hset(args: &Frame, store: &mut Store) -> (r: Result<Frame, Error>)
    ensures
        (reply_view(r), final(store)@) == spec_hset_command(args@, old(store)@),
{
    match args {
        Frame::Array(frames) => {
            proof {
                lemma_frames_view(frames@);
            }
            if frames.len() != 4 {
                return Ok(error_frame("Err wrong number of arguments to 'hset' command"));
            }
            let key = match to_string(&frames[1]) {
                Some(k) => k,
                None => {
                    return Ok(error_frame("ERR key must be a string"));
                },
            };
            let field = match to_string(&frames[2]) {
                Some(f) => f,
                None => {
                    return Ok(error_frame("ERR field must be a string"));
                },
            };
            if store.hset(key.clone(), field.clone(), frames[3].clone()).is_err() {
                return Ok(error_frame("ERR invalid field or key"));
            }
            Ok(Frame::Simple("OK".to_owned()))
        },
        _ => Ok(error_frame("Err Invalid args")),
    }
}

fn hget(args: &Frame, store: &mut Store) -> (r: Result<Frame, Error>)
    ensures
        (reply_view(r), final(store)@) == spec_hget_command(args@, old(store)@),
{
    match args {
        Frame::Array(frames) => {
            proof {
                lemma_frames_view(frames@);
            }
            if frames.len() != 3 {
                return Ok(error_frame("Err wrong number of arguments for 'hget' command"));
            }
            let key = match to_string(&frames[1]) {
                Some(k) => k,
                None => {
                    return Ok(error_frame("ERR key must be a string"));
                },
            };
            let field = match to_string(&frames[2]) {
                Some(f) => f,
                None => {
                    return Ok(error_frame("ERR field must be a string"));
                },
            };
            match store.hget(key.as_str(), field.as_str()) {
                Ok(Some(value)) => Ok(value),
                Ok(None) => Ok(Frame::Null),
                Err(e) => Ok(Frame::Error(e.debug_text())),
            }
        },
        _ => Ok(error_frame("Err Invalid args")),
    }
}

/// The text of a simple or bulk frame.
pub fn to_string(frame: &Frame) -> (r: Option<String>)
    ensures
        r matches Some(s) ==> frame_text(frame@) == Some(s@),
        r is None ==> frame_text(frame@) is None,
{
    match frame {
        Frame::Simple(s) => Some(s.clone()),
        Frame::Bulk(b) => Some(utf8_lossy(bytes_as_slice(b))),
        _ => None,
    }
}

} // verus!

verus! {

/// `SET key value` followed by `GET key` replies with the value, for command
/// names that upper-case to `SET` and `GET`, a key given as a simple or bulk
/// string, and a value that is not a hash.
pub proof fn law_get_returns_what_set_stored(
    set_name: Seq<char>,
    get_name: Seq<char>,
    key: FrameView,
    value: FrameView,
    m: Keyspace,
)
    requires
        uppercase(set_name) == "SET"@,
        uppercase(get_name) == "GET"@,
        frame_text(key) is Some,
        !(value is Hash),
    ensures
        ({
            let set = spec_execute(FrameView::Array(seq![FrameView::Simple(set_name), key, value]), m);
            let get = spec_execute(FrameView::Array(seq![FrameView::Simple(get_name), key]), set.1);
            &&& set.0 == ok_reply()
            &&& set.1 == m.insert(frame_text(key)->0, value)
            &&& get.0 == Ok::<FrameView, ErrorView>(value)
            &&& get.1 == set.1
        }),
{
    reveal_strlit("SET");
    reveal_strlit("GET");
    assert("GET"@ != "SET"@) by {
        assert("GET"@[0] != "SET"@[0]);
    }
    let k = frame_text(key)->0;
    let sa = seq![FrameView::Simple(set_name), key, value];
    let ga = seq![FrameView::Simple(get_name), key];
    assert(sa.len() == 3 && sa[0] == FrameView::Simple(set_name) && sa[1] == key && sa[2] == value);
    assert(ga.len() == 2 && ga[0] == FrameView::Simple(get_name) && ga[1] == key);
    let m1 = m.insert(k, value);
    assert(spec_execute(FrameView::Array(sa), m) == (ok_reply(), m1));
    assert(spec_get(m1, k) == Ok::<Option<FrameView>, ErrorView>(Some(value)));
}

/// `HSET key field value` followed by `HGET key field` replies with the
/// value, when the key is new or holds a hash.
pub proof fn law_hget_returns_what_hset_stored(
    hset_name: Seq<char>,
    hget_name: Seq<char>,
    key: FrameView,
    field: FrameView,
    value: FrameView,
    m: Keyspace,
)
    requires
        uppercase(hset_name) == "HSET"@,
        uppercase(hget_name) == "HGET"@,
        frame_text(key) is Some,
        frame_text(field) is Some,
        hset_ok(m, frame_text(key)->0),
    ensures
        ({
            let set = spec_execute(
                FrameView::Array(seq![FrameView::Simple(hset_name), key, field, value]),
                m,
            );
            let get = spec_execute(
                FrameView::Array(seq![FrameView::Simple(hget_name), key, field]),
                set.1,
            );
            &&& set.0 == ok_reply()
            &&& get.0 == Ok::<FrameView, ErrorView>(value)
            &&& get.1 == set.1
        }),
{
    reveal_strlit("SET");
    reveal_strlit("GET");
    reveal_strlit("HSET");
    reveal_strlit("HGET");
    assert("HSET"@ != "SET"@ && "HSET"@ != "GET"@) by {
        assert("HSET"@.len() != "SET"@.len());
        assert("HSET"@.len() != "GET"@.len());
    }
    assert("HGET"@ != "SET"@ && "HGET"@ != "GET"@ && "HGET"@ != "HSET"@) by {
        assert("HGET"@.len() != "SET"@.len());
        assert("HGET"@.len() != "GET"@.len());
        assert("HGET"@[1] != "HSET"@[1]);
    }
    let k = frame_text(key)->0;
    let f = frame_text(field)->0;
    let sa = seq![FrameView::Simple(hset_name), key, field, value];
    let ga = seq![FrameView::Simple(hget_name), key, field];
    assert(sa.len() == 4 && sa[0] == FrameView::Simple(hset_name) && sa[1] == key && sa[2] == field
        && sa[3] == value);
    assert(ga.len() == 3 && ga[0] == FrameView::Simple(hget_name) && ga[1] == key && ga[2] == field);
    let m1 = spec_hset(m, k, f, value);
    assert(spec_execute(FrameView::Array(sa), m) == (ok_reply(), m1));
    crate::store::law_hget_after_hset(m, k, f, value);
}

/// A command other than `SET` and `HSET` leaves the keyspace as it was.
pub proof fn law_only_set_and_hset_write(args: FrameView, m: Keyspace)
    requires
        !is_write_command(args),
    ensures
        spec_execute(args, m).1 == m,
{
}

} // verus!

verus! {

/// The case of a command name's letters does not matter: two requests whose
/// ASCII names agree once upper-cased, and name one of the five commands, and
/// whose other elements are the same, get the same reply and leave the same
/// keyspace (`execute_command` dispatches an ASCII name on its ASCII upper case).
pub proof fn law_command_names_ignore_case(
    n1: Seq<char>,
    n2: Seq<char>,
    rest: Seq<FrameView>,
    m: Keyspace,
)
    requires
        ascii_uppercase(n1) == ascii_uppercase(n2),
        ascii_uppercase(n1) == "SET"@ || ascii_uppercase(n1) == "GET"@ || ascii_uppercase(n1)
            == "HSET"@ || ascii_uppercase(n1) == "HGET"@ || ascii_uppercase(n1) == "PING"@,
    ensures
        spec_dispatch(
            ascii_uppercase(n1),
            n1,
            FrameView::Array(seq![FrameView::Simple(n1)] + rest),
            m,
        ) == spec_dispatch(
            ascii_uppercase(n2),
            n2,
            FrameView::Array(seq![FrameView::Simple(n2)] + rest),
            m,
        ),
{
    let a = seq![FrameView::Simple(n1)] + rest;
    let b = seq![FrameView::Simple(n2)] + rest;
    assert(a.len() == b.len());
    assert forall|i: int| 1 <= i < a.len() implies #[trigger] a[i] == b[i] by {
        assert(a[i] == rest[i - 1]);
        assert(b[i] == rest[i - 1]);
    }
    if a.len() > 1 {
        assert(a[1] == b[1]);
    }
    if a.len() > 2 {
        assert(a[2] == b[2]);
    }
    if a.len() > 3 {
        assert(a[3] == b[3]);
    }
}

} // verus!

verus! {

/// A bulk-string key names the whole of its text: `SET` stores under the
/// bytes read as UTF-8, so after `SET k1 v1` and `SET k2 v2` with keys whose
/// texts differ, `GET k1` still replies `v1`.
pub proof fn law_bulk_keys_are_whole_texts(
    set_name: Seq<char>,
    get_name: Seq<char>,
    k1: Seq<u8>,
    k2: Seq<u8>,
    v1: FrameView,
    v2: FrameView,
    m: Keyspace,
)
    requires
        uppercase(set_name) == "SET"@,
        uppercase(get_name) == "GET"@,
        lossy_utf8(k1) != lossy_utf8(k2),
        !(v1 is Hash),
    ensures
        ({
            let s1 = spec_execute(
                FrameView::Array(seq![FrameView::Simple(set_name), FrameView::Bulk(k1), v1]),
                m,
            );
            let s2 = spec_execute(
                FrameView::Array(seq![FrameView::Simple(set_name), FrameView::Bulk(k2), v2]),
                s1.1,
            );
            let g = spec_execute(
                FrameView::Array(seq![FrameView::Simple(get_name), FrameView::Bulk(k1)]),
                s2.1,
            );
            &&& s1.1 == m.insert(lossy_utf8(k1), v1)
            &&& s2.1 == m.insert(lossy_utf8(k1), v1).insert(lossy_utf8(k2), v2)
            &&& g.0 == Ok::<FrameView, ErrorView>(v1)
        }),
{
    reveal_strlit("SET");
    reveal_strlit("GET");
    assert("GET"@ != "SET"@) by {
        assert("GET"@[0] != "SET"@[0]);
    }
    let a1 = seq![FrameView::Simple(set_name), FrameView::Bulk(k1), v1];
    let a2 = seq![FrameView::Simple(set_name), FrameView::Bulk(k2), v2];
    let ga = seq![FrameView::Simple(get_name), FrameView::Bulk(k1)];
    assert(a1.len() == 3 && a1[0] == FrameView::Simple(set_name) && a1[1] == FrameView::Bulk(k1)
        && a1[2] == v1);
    assert(a2.len() == 3 && a2[0] == FrameView::Simple(set_name) && a2[1] == FrameView::Bulk(k2)
        && a2[2] == v2);
    assert(ga.len() == 2 && ga[0] == FrameView::Simple(get_name) && ga[1] == FrameView::Bulk(k1));
    let m1 = m.insert(lossy_utf8(k1), v1);
    let m2 = m1.insert(lossy_utf8(k2), v2);
    assert(spec_execute(FrameView::Array(a1), m) == (ok_reply(), m1));
    assert(spec_execute(FrameView::Array(a2), m1) == (ok_reply(), m2));
    assert(m2[lossy_utf8(k1)] == v1);
    assert(spec_get(m2, lossy_utf8(k1)) == Ok::<Option<FrameView>, ErrorView>(Some(v1)));
}

} // verus!
