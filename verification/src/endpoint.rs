//! Where a Stream goes and comes from: the server, the variable, and how
//! they are written as one target.
//!
//! The origin URI names the server and the variable:
//! `iec61850://host:102/XMIP/Stream`. A target is the same, or a bare
//! `host:port` for the configured variable.

use std::time::Duration;

use vstd::prelude::*;
use vstd::slice::slice_to_vec;

use crate::error::{Error, ErrorView};
use crate::session;
use crate::session::Session;

verus! {

/// The TSAP a client presents.
pub const CLIENT_TSAP: [u8; 2] = [0x00, 0x01];

/// The TSAP a server listens on.
pub const SERVER_TSAP: [u8; 2] = [0x00, 0x01];

/// The domain of the variable a Stream travels as unless a target says
/// otherwise.
pub const STREAM_DOMAIN: &'static str = "XMIP";

/// The item of that variable.
pub const STREAM_ITEM: &'static str = "Stream";

/// What every origin URI starts with.
pub const SCHEME: &'static str = "iec61850://";

/// An ephemeral port of this machine.
pub const LOCAL_ADDRESS: &'static str = "127.0.0.1:0";

/// The place of the first `c` in `text`.
pub open spec fn first_place(text: Seq<char>, c: char) -> Option<int>
    decreases text.len(),
{
    if text.len() == 0 {
        None
    } else if text[0] == c {
        Some(0)
    } else {
        match first_place(text.skip(1), c) {
            Some(place) => Some(place + 1),
            None => None,
        }
    }
}

/// What stands before and after the first `c` in `text`.
pub open spec fn split_at_first(text: Seq<char>, c: char) -> Option<(Seq<char>, Seq<char>)> {
    match first_place(text, c) {
        Some(place) => Some((text.take(place), text.skip(place + 1))),
        None => None,
    }
}

/// The authority and the path of a target in full; nothing of a bare one.
pub open spec fn target_parts(target: Seq<char>) -> Option<(Seq<char>, Seq<char>)> {
    if SCHEME@.is_prefix_of(target) {
        let after = target.skip(SCHEME@.len() as int);
        match split_at_first(after, '/') {
            Some(parts) => Some(parts),
            None => Some((after, Seq::empty())),
        }
    } else {
        None
    }
}

/// The address, domain and item of a target that came apart into `parts`.
pub open spec fn resolved_parts(
    endpoint: EndpointView,
    target: Seq<char>,
    parts: Option<(Seq<char>, Seq<char>)>,
) -> Result<(Seq<char>, Seq<char>, Seq<char>), ErrorView> {
    match parts {
        None => Ok((target, endpoint.domain, endpoint.item)),
        Some((authority, path)) => if path.len() == 0 {
            Ok((authority, endpoint.domain, endpoint.item))
        } else {
            match split_at_first(path, '/') {
                Some((domain, item)) => if domain.len() > 0 && item.len() > 0 {
                    Ok((authority, domain, item))
                } else {
                    Err(ErrorView::NoVariableNamed { target })
                },
                None => Err(ErrorView::NoVariableNamed { target }),
            }
        },
    }
}

/// The address, domain and item that a target names.
pub open spec fn resolved(endpoint: EndpointView, target: Seq<char>) -> Result<
    (Seq<char>, Seq<char>, Seq<char>),
    ErrorView,
> {
    resolved_parts(endpoint, target, target_parts(target))
}

/// What a resolved target says.
pub open spec fn resolved_view(target: Result<(String, String, String), Error>) -> Result<
    (Seq<char>, Seq<char>, Seq<char>),
    ErrorView,
> {
    match target {
        Ok((address, domain, item)) => Ok((address@, domain@, item@)),
        Err(e) => Err(e@),
    }
}

/// The URI of a variable at a server.
pub open spec fn origin(authority: Seq<char>, domain: Seq<char>, item: Seq<char>) -> Seq<char> {
    SCHEME@ + authority + seq!['/'] + domain + seq!['/'] + item
}

/// A server's address, a variable, and how long to wait for a peer that
/// stops mid-message.
#[derive(Clone)]
pub struct Iec61850Transport {
    bind: String,
    domain: String,
    item: String,
    timeout: Option<Duration>,
}

/// What an endpoint says.
#[verifier::ext_equal]
pub struct EndpointView {
    pub bind: Seq<char>,
    pub domain: Seq<char>,
    pub item: Seq<char>,
    pub timeout: Option<Duration>,
}

impl View for Iec61850Transport {
    type V = EndpointView;

    closed spec fn view(&self) -> EndpointView {
        EndpointView {
            bind: self.bind@,
            domain: self.domain@,
            item: self.item@,
            timeout: self.timeout,
        }
    }
}

impl Iec61850Transport {
    /// Listen or connect at `bind`, about `XMIP/Stream`.
    pub fn new(bind: &str) -> (endpoint: Iec61850Transport)
        ensures
            endpoint@ == (EndpointView {
                bind: bind@,
                domain: STREAM_DOMAIN@,
                item: STREAM_ITEM@,
                timeout: None,
            }),
    {
        Iec61850Transport {
            bind: bind.to_string(),
            domain: STREAM_DOMAIN.to_string(),
            item: STREAM_ITEM.to_string(),
            timeout: None,
        }
    }

    /// Speak about `domain/item` instead.
    pub fn about(self, domain: &str, item: &str) -> (endpoint: Iec61850Transport)
        ensures
            endpoint@ == (EndpointView { domain: domain@, item: item@, ..self@ }),
    {
        Iec61850Transport {
            bind: self.bind,
            domain: domain.to_string(),
            item: item.to_string(),
            timeout: self.timeout,
        }
    }

    /// Give up on a peer that stops mid-message.
    pub fn timing_out_after(self, timeout: Duration) -> (endpoint: Iec61850Transport)
        ensures
            endpoint@ == (EndpointView { timeout: Some(timeout), ..self@ }),
    {
        Iec61850Transport {
            bind: self.bind,
            domain: self.domain,
            item: self.item,
            timeout: Some(timeout),
        }
    }

    /// Both ends on this machine: an ephemeral local port, `timeout` on
    /// either side of the association.
    pub fn loopback(timeout: Duration) -> (endpoint: Iec61850Transport)
        ensures
            endpoint@ == (EndpointView {
                bind: LOCAL_ADDRESS@,
                domain: STREAM_DOMAIN@,
                item: STREAM_ITEM@,
                timeout: Some(timeout),
            }),
    {
        Iec61850Transport::new(LOCAL_ADDRESS).timing_out_after(timeout)
    }

    /// The near end that sends what this end, listening, takes: about the
    /// same variable, waiting as long, or `otherwise` where this end waits
    /// for ever.
    pub fn near_end(&self, otherwise: Duration) -> (endpoint: Iec61850Transport)
        ensures
            endpoint@ == (EndpointView {
                bind: LOCAL_ADDRESS@,
                domain: self@.domain,
                item: self@.item,
                timeout: Some(
                    match self@.timeout {
                        Some(timeout) => timeout,
                        None => otherwise,
                    },
                ),
            }),
    {
        Iec61850Transport::new(LOCAL_ADDRESS).about(
            self.domain.as_str(),
            self.item.as_str(),
        ).timing_out_after(self.timeout.unwrap_or(otherwise))
    }

    /// What this transport is called.
    pub fn name(&self) -> (name: &'static str)
        ensures
            name@ == "iec-61850"@,
    {
        "iec-61850"
    }

    /// Where to listen or connect.
    pub fn address(&self) -> (address: &str)
        ensures
            address@ == self@.bind,
    {
        self.bind.as_str()
    }

    /// The domain of the configured variable.
    pub fn domain(&self) -> (domain: &str)
        ensures
            domain@ == self@.domain,
    {
        self.domain.as_str()
    }

    /// The item of the configured variable.
    pub fn item(&self) -> (item: &str)
        ensures
            item@ == self@.item,
    {
        self.item.as_str()
    }

    /// How long to wait for a peer that stops mid-message.
    pub fn timeout(&self) -> (timeout: Option<Duration>)
        ensures
            timeout == self@.timeout,
    {
        self.timeout
    }

    /// `iec61850://host:102/<domain>/<item>` in full, or `host:port` for
    /// the configured variable.
    pub fn resolve(&self, target: &str) -> (named: Result<(String, String, String), Error>)
        ensures
            resolved_view(named) == resolved(self@, target@),
    {
        self.resolve_parts(target, split_target(target))
    }

    /// The address, domain and item of a target that came apart into
    /// `parts`: an authority and a path, or nothing where it is bare.
    pub fn resolve_parts(&self, target: &str, parts: Option<(&str, &str)>) -> (named: Result<
        (String, String, String),
        Error,
    >)
        ensures
            resolved_view(named) == resolved_parts(self@, target@, parts_view(parts)),
    {
        match parts {
            None => Ok((target.to_string(), self.domain.clone(), self.item.clone())),
            Some((authority, path)) => {
                if path.is_empty() {
                    return Ok((authority.to_string(), self.domain.clone(), self.item.clone()));
                }
                match split_once(path, '/') {
                    Some((domain, item)) => if !domain.is_empty() && !item.is_empty() {
                        Ok((authority.to_string(), domain.to_string(), item.to_string()))
                    } else {
                        Err(Error::NoVariableNamed { target: target.to_string() })
                    },
                    None => Err(Error::NoVariableNamed { target: target.to_string() }),
                }
            },
        }
    }

    /// The URI of what was read from the configured variable.
    pub fn origin_uri(&self) -> (uri: String)
        ensures
            uri@ == origin(self@.bind, self@.domain, self@.item),
    {
        origin_uri(self.bind.as_str(), self.domain.as_str(), self.item.as_str())
    }

    /// The session of the far end: it holds the configured variable, empty.
    pub fn far_end(&self) -> (session: Session)
        ensures
            session@ == Map::<session::Name, Seq<u8>>::empty().insert(
                (self@.domain, self@.item),
                Seq::empty(),
            ),
    {
        let nothing: Vec<u8> = Vec::new();
        let session = Session::new().with_variable(
            self.domain.as_str(),
            self.item.as_str(),
            nothing,
        );
        assert(nothing@ =~= Seq::empty());
        session
    }

    /// What the client at `peer` left in the configured variable of
    /// `session`, and the URI that says so.
    pub fn take_one(&self, session: &Session, peer: &str) -> (arrived: Result<
        (String, Vec<u8>),
        Error,
    >)
        ensures
            match arrived {
                Ok((uri, bytes)) => session@.dom().contains((self@.domain, self@.item)) && bytes@
                    == session@[(self@.domain, self@.item)] && uri@ == origin(
                    peer@,
                    self@.domain,
                    self@.item,
                ),
                Err(e) => !session@.dom().contains((self@.domain, self@.item)) && e@
                    == ErrorView::VariableMissing,
            },
    {
        match session.variable(self.domain.as_str(), self.item.as_str()) {
            Some(bytes) => Ok(
                (
                    origin_uri(peer, self.domain.as_str(), self.item.as_str()),
                    slice_to_vec(bytes),
                ),
            ),
            None => Err(Error::VariableMissing),
        }
    }
}

/// Two parts as text.
pub open spec fn parts_view(parts: Option<(&str, &str)>) -> Option<(Seq<char>, Seq<char>)> {
    match parts {
        Some((before, after)) => Some((before@, after@)),
        None => None,
    }
}

/// The URI of a variable at a server.
pub fn origin_uri(authority: &str, domain: &str, item: &str) -> (uri: String)
    ensures
        uri@ == origin(authority@, domain@, item@),
{
    let mut uri = SCHEME.to_string();
    uri.append(authority);
    uri.append("/");
    uri.append(domain);
    uri.append("/");
    uri.append(item);
    proof {
        reveal_strlit("/");
        assert("/"@ =~= seq!['/']);
    }
    uri
}

proof fn lemma_first_place(text: Seq<char>, c: char, place: int)
    requires
        0 <= place <= text.len(),
        forall|i: int| 0 <= i < place ==> #[trigger] text[i] != c,
    ensures
        place < text.len() && text[place] == c ==> first_place(text, c) == Some(place),
        place == text.len() ==> first_place(text, c) is None,
    decreases text.len(),
{
    if place > 0 {
        let rest = text.skip(1);
        assert(text[0] != c);
        assert forall|i: int| 0 <= i < place - 1 implies #[trigger] rest[i] != c by {
            assert(rest[i] == text[i + 1]);
        }
        lemma_first_place(rest, c, place - 1);
    }
}

/// What stands before and after the first `c` in `text`.
fn split_once(text: &str, c: char) -> (parts: Option<(&str, &str)>)
    ensures
        parts_view(parts) == split_at_first(text@, c),
{
    let length: usize = text.unicode_len();
    let mut place: usize = 0;
    for next in it: text.chars()
        invariant
            place == it.index(),
            length == text@.len(),
            it.seq() == text@,
            forall|i: int| 0 <= i < place ==> #[trigger] text@[i] != c,
    {
        if next == c {
            proof {
                lemma_first_place(text@, c, place as int);
            }
            let before = text.substring_char(0, place);
            let after = text.substring_char(place + 1, length);
            assert(before@ =~= text@.take(place as int));
            assert(after@ =~= text@.skip(place + 1));
            return Some((before, after));
        }
        place = place + 1;
    }
    proof {
        lemma_first_place(text@, c, text@.len() as int);
    }
    None
}

/// The authority and the path of a target in full; nothing of a bare one.
pub fn split_target(target: &str) -> (parts: Option<(&str, &str)>)
    ensures
        parts_view(parts) == target_parts(target@),
{
    let length: usize = target.unicode_len();
    let scheme: usize = SCHEME.unicode_len();
    if length < scheme {
        return None;
    }
    let front = target.substring_char(0, scheme);
    assert(front@ =~= target@.take(scheme as int));
    if front.to_string() != SCHEME.to_string() {
        return None;
    }
    let after = target.substring_char(scheme, length);
    assert(after@ =~= target@.skip(scheme as int));
    proof {
        reveal_strlit("");
        assert(""@ =~= Seq::empty());
    }
    match split_once(after, '/') {
        Some(parts) => Some(parts),
        None => Some((after, "")),
    }
}

/// The URI of a variable is a target that names it, whatever variable is
/// configured: the address has no slash, the domain is not empty and has no
/// slash, the item is not empty.
pub proof fn an_origin_is_a_target(
    endpoint: EndpointView,
    authority: Seq<char>,
    domain: Seq<char>,
    item: Seq<char>,
)
    requires
        !authority.contains('/'),
        !domain.contains('/'),
        domain.len() > 0,
        item.len() > 0,
    ensures
        resolved(endpoint, origin(authority, domain, item)) == Ok::<
            (Seq<char>, Seq<char>, Seq<char>),
            ErrorView,
        >((authority, domain, item)),
{
    let target = origin(authority, domain, item);
    let path = domain + seq!['/'] + item;
    let after = authority + seq!['/'] + path;
    assert(target.subrange(0, SCHEME@.len() as int) =~= SCHEME@);
    assert(target.skip(SCHEME@.len() as int) =~= after);
    assert forall|i: int| 0 <= i < authority.len() implies #[trigger] after[i] != '/' by {
        assert(authority.contains(authority[i]));
    }
    lemma_first_place(after, '/', authority.len() as int);
    assert(after.take(authority.len() as int) =~= authority);
    assert(after.skip(authority.len() as int + 1) =~= path);
    assert forall|i: int| 0 <= i < domain.len() implies #[trigger] path[i] != '/' by {
        assert(domain.contains(domain[i]));
    }
    lemma_first_place(path, '/', domain.len() as int);
    assert(path.take(domain.len() as int) =~= domain);
    assert(path.skip(domain.len() as int + 1) =~= item);
}

/// A bare target is an address, about the configured variable.
pub proof fn a_bare_target_is_about_the_configured_variable(
    endpoint: EndpointView,
    target: Seq<char>,
)
    requires
        !SCHEME@.is_prefix_of(target),
    ensures
        resolved(endpoint, target) == Ok::<(Seq<char>, Seq<char>, Seq<char>), ErrorView>(
            (target, endpoint.domain, endpoint.item),
        ),
{
}

/// A target in full without a path is about the configured variable.
pub proof fn a_target_without_a_path_is_about_the_configured_variable(
    endpoint: EndpointView,
    authority: Seq<char>,
)
    requires
        !authority.contains('/'),
    ensures
        resolved(endpoint, SCHEME@ + authority) == Ok::<
            (Seq<char>, Seq<char>, Seq<char>),
            ErrorView,
        >((authority, endpoint.domain, endpoint.item)),
        resolved(endpoint, SCHEME@ + authority + seq!['/']) == Ok::<
            (Seq<char>, Seq<char>, Seq<char>),
            ErrorView,
        >((authority, endpoint.domain, endpoint.item)),
{
    let bare = SCHEME@ + authority;
    let closed = SCHEME@ + authority + seq!['/'];
    let after = authority + seq!['/'];
    assert(bare.subrange(0, SCHEME@.len() as int) =~= SCHEME@);
    assert(bare.skip(SCHEME@.len() as int) =~= authority);
    assert(closed.subrange(0, SCHEME@.len() as int) =~= SCHEME@);
    assert(closed.skip(SCHEME@.len() as int) =~= after);
    assert forall|i: int| 0 <= i < authority.len() implies #[trigger] authority[i] != '/' by {
        assert(authority.contains(authority[i]));
    }
    assert forall|i: int| 0 <= i < authority.len() implies #[trigger] after[i] != '/' by {
        assert(authority.contains(authority[i]));
    }
    lemma_first_place(authority, '/', authority.len() as int);
    lemma_first_place(after, '/', authority.len() as int);
    assert(after.take(authority.len() as int) =~= authority);
    assert(after.skip(authority.len() as int + 1) =~= Seq::empty());
}

/// A target in full whose path is not a domain and an item, neither empty,
/// is refused.
pub proof fn a_path_that_names_no_variable_is_refused(
    endpoint: EndpointView,
    authority: Seq<char>,
    path: Seq<char>,
)
    requires
        !authority.contains('/'),
        path.len() > 0,
        !path.contains('/') || path[0] == '/' || (path.last() == '/'
            && !path.drop_last().contains('/')),
    ensures
        resolved(endpoint, SCHEME@ + authority + seq!['/'] + path) == Err::<
            (Seq<char>, Seq<char>, Seq<char>),
            ErrorView,
        >(ErrorView::NoVariableNamed { target: SCHEME@ + authority + seq!['/'] + path }),
{
    let target = SCHEME@ + authority + seq!['/'] + path;
    let after = authority + seq!['/'] + path;
    assert(target.subrange(0, SCHEME@.len() as int) =~= SCHEME@);
    assert(target.skip(SCHEME@.len() as int) =~= after);
    assert forall|i: int| 0 <= i < authority.len() implies #[trigger] after[i] != '/' by {
        assert(authority.contains(authority[i]));
    }
    lemma_first_place(after, '/', authority.len() as int);
    assert(after.skip(authority.len() as int + 1) =~= path);
    if !path.contains('/') {
        assert forall|i: int| 0 <= i < path.len() implies #[trigger] path[i] != '/' by {
            assert(path.contains(path[i]));
        }
        lemma_first_place(path, '/', path.len() as int);
    } else if path[0] != '/' {
        let front = path.drop_last();
        assert forall|i: int| 0 <= i < front.len() implies #[trigger] path[i] != '/' by {
            assert(front.contains(front[i]));
        }
        lemma_first_place(path, '/', front.len() as int);
    }
}

/// What stands in a target and in an origin URI, letter by letter.
pub proof fn the_letters_of_a_target()
    ensures
        SCHEME@ == seq!['i', 'e', 'c', '6', '1', '8', '5', '0', ':', '/', '/'],
        STREAM_DOMAIN@ == seq!['X', 'M', 'I', 'P'],
        STREAM_ITEM@ == seq!['S', 't', 'r', 'e', 'a', 'm'],
        LOCAL_ADDRESS@ == seq!['1', '2', '7', '.', '0', '.', '0', '.', '1', ':', '0'],
        CLIENT_TSAP@ == seq![0x00u8, 0x01],
        SERVER_TSAP@ == seq![0x00u8, 0x01],
{
    reveal_strlit("iec61850://");
    reveal_strlit("XMIP");
    reveal_strlit("Stream");
    reveal_strlit("127.0.0.1:0");
    assert(SCHEME@ =~= seq!['i', 'e', 'c', '6', '1', '8', '5', '0', ':', '/', '/']);
    assert(STREAM_DOMAIN@ =~= seq!['X', 'M', 'I', 'P']);
    assert(STREAM_ITEM@ =~= seq!['S', 't', 'r', 'e', 'a', 'm']);
    assert(LOCAL_ADDRESS@ =~= seq!['1', '2', '7', '.', '0', '.', '0', '.', '1', ':', '0']);
    assert(CLIENT_TSAP@ =~= seq![0x00u8, 0x01]);
    assert(SERVER_TSAP@ =~= seq![0x00u8, 0x01]);
}

/// An origin URI is the scheme, the address, the domain and the item, parted
/// by slashes.
pub proof fn an_origin_names_server_domain_and_item(
    authority: Seq<char>,
    domain: Seq<char>,
    item: Seq<char>,
)
    ensures
        origin(authority, domain, item) == "iec61850://"@ + authority + "/"@ + domain + "/"@
            + item,
{
    reveal_strlit("/");
    assert("/"@ =~= seq!['/']);
}

/// Text is parted at the first of a character, and not where there is none.
pub proof fn text_is_parted_at_the_first(before: Seq<char>, after: Seq<char>, c: char)
    requires
        !before.contains(c),
    ensures
        split_at_first(before + seq![c] + after, c) == Some((before, after)),
        split_at_first(before, c) is None,
{
    let text = before + seq![c] + after;
    assert forall|i: int| 0 <= i < before.len() implies #[trigger] text[i] != c by {
        assert(before.contains(before[i]));
    }
    assert forall|i: int| 0 <= i < before.len() implies #[trigger] before[i] != c by {
        assert(before.contains(before[i]));
    }
    lemma_first_place(text, c, before.len() as int);
    lemma_first_place(before, c, before.len() as int);
    assert(text.take(before.len() as int) =~= before);
    assert(text.skip(before.len() as int + 1) =~= after);
}

/// A target in full comes apart after its scheme, at the first slash, into
/// its authority and its path; one without a slash has no path, and one
/// without the scheme does not come apart.
pub proof fn a_target_comes_apart_at_its_first_slash(authority: Seq<char>, path: Seq<char>)
    requires
        !authority.contains('/'),
    ensures
        target_parts("iec61850://"@ + authority + seq!['/'] + path) == Some((authority, path)),
        target_parts("iec61850://"@ + authority) == Some((authority, Seq::<char>::empty())),
        !"iec61850://"@.is_prefix_of(path) ==> target_parts(path) is None,
{
    let full = SCHEME@ + authority + seq!['/'] + path;
    let bare = SCHEME@ + authority;
    assert(full.subrange(0, SCHEME@.len() as int) =~= SCHEME@);
    assert(bare.subrange(0, SCHEME@.len() as int) =~= SCHEME@);
    assert(full.skip(SCHEME@.len() as int) =~= authority + seq!['/'] + path);
    assert(bare.skip(SCHEME@.len() as int) =~= authority);
    text_is_parted_at_the_first(authority, path, '/');
}

/// Parts name the variable that their path names, at their authority: the
/// domain before the first slash and the item after it. Without a path it is
/// the configured one, and without parts the target is the address.
pub proof fn parts_name_the_variable_of_their_path(
    endpoint: EndpointView,
    target: Seq<char>,
    authority: Seq<char>,
    domain: Seq<char>,
    item: Seq<char>,
)
    requires
        !domain.contains('/'),
    ensures
        resolved_parts(endpoint, target, None) == Ok::<
            (Seq<char>, Seq<char>, Seq<char>),
            ErrorView,
        >((target, endpoint.domain, endpoint.item)),
        resolved_parts(endpoint, target, Some((authority, Seq::empty()))) == Ok::<
            (Seq<char>, Seq<char>, Seq<char>),
            ErrorView,
        >((authority, endpoint.domain, endpoint.item)),
        resolved_parts(endpoint, target, Some((authority, domain + seq!['/'] + item))) == (
        if domain.len() > 0 && item.len() > 0 {
            Ok((authority, domain, item))
        } else {
            Err(ErrorView::NoVariableNamed { target })
        }),
        domain.len() > 0 ==> resolved_parts(endpoint, target, Some((authority, domain))) == Err::<
            (Seq<char>, Seq<char>, Seq<char>),
            ErrorView,
        >(ErrorView::NoVariableNamed { target }),
        resolved(endpoint, target) == resolved_parts(endpoint, target, target_parts(target)),
{
    text_is_parted_at_the_first(domain, item, '/');
}

/// What a target named, and what it came apart into, say what they hold.
pub proof fn what_a_target_named_says_what_it_holds(
    address: String,
    domain: String,
    item: String,
    error: Error,
    before: &str,
    after: &str,
)
    ensures
        resolved_view(Ok((address, domain, item))) == Ok::<
            (Seq<char>, Seq<char>, Seq<char>),
            ErrorView,
        >((address@, domain@, item@)),
        resolved_view(Err(error)) == Err::<(Seq<char>, Seq<char>, Seq<char>), ErrorView>(error@),
        parts_view(Some((before, after))) == Some((before@, after@)),
        parts_view(None) is None,
{
}

} // verus!
