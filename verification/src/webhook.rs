//! Webhook credentials, their list file, and the object URIs that name them.
use vstd::prelude::*;

use crate::text::{
    char_views, chars_of, find_char, law_pieces_join_back, lemma_one_piece, lemma_pieces_join,
    pieces, push_text, separated, split_chars, starts_with, strip_prefix, text_of, trim, trimmed,
};

verus! {

/// A webhook credential: what is needed to address it.
#[derive(Debug, PartialEq, Eq)]
pub struct Webhook {
    pub id: String,
    pub token: String,
}

impl Clone for Webhook {
    fn clone(&self) -> (copy: Self)
        ensures
            copy == *self,
    {
        Webhook { id: self.id.clone(), token: self.token.clone() }
    }
}

/// Runtime state for one webhook in the registry.
#[derive(Debug)]
pub struct WebhookSlot {
    pub id: String,
    pub token: String,
    /// Uploads dispatched through this webhook.
    pub used: u64,
    /// Set once the webhook is detected as deleted or unauthorized.
    pub dead: bool,
}

impl WebhookSlot {
    pub fn new(webhook: Webhook) -> (slot: WebhookSlot)
        ensures
            slot.id == webhook.id,
            slot.token == webhook.token,
            slot.used == 0,
            !slot.dead,
    {
        WebhookSlot { id: webhook.id, token: webhook.token, used: 0, dead: false }
    }
}

/// Parts of a `discord://{id}/{token}/{message_id}` object URI.
#[derive(Debug, PartialEq, Eq)]
pub struct ParsedUri {
    pub id: String,
    pub token: String,
    pub message_id: String,
}

#[derive(Clone, Copy, Debug, PartialEq, Eq, Structural)]
pub enum UriError {
    NotDiscord,
    Malformed,
}

impl UriError {
    pub fn message(&self, uri: &str) -> (text: String)
        ensures
            text@ == match *self {
                UriError::NotDiscord => "not a discord uri: "@,
                UriError::Malformed => "malformed discord uri: "@,
            } + uri@,
    {
        let mut text: String = String::new();
        match self {
            UriError::NotDiscord => push_text(&mut text, "not a discord uri: "),
            UriError::Malformed => push_text(&mut text, "malformed discord uri: "),
        }
        push_text(&mut text, uri);
        assert(text@ =~= match *self {
            UriError::NotDiscord => "not a discord uri: "@,
            UriError::Malformed => "malformed discord uri: "@,
        } + uri@);
        text
    }
}

/// The URI of a message.
pub open spec fn uri_text(id: Seq<char>, token: Seq<char>, message_id: Seq<char>) -> Seq<char> {
    "discord://"@ + id.push('/') + token.push('/') + message_id
}

/// Builds the self-describing object URI: everything needed to find the
/// message again.
pub fn format_uri(id: &str, token: &str, message_id: &str) -> (uri: String)
    ensures
        uri@ == uri_text(id@, token@, message_id@),
{
    let mut uri: String = String::new();
    push_text(&mut uri, "discord://");
    push_text(&mut uri, id);
    uri.push('/');
    push_text(&mut uri, token);
    uri.push('/');
    push_text(&mut uri, message_id);
    assert(uri@ =~= uri_text(id@, token@, message_id@));
    uri
}

/// The three parts of a URI, where it has exactly three and none is empty.
pub open spec fn uri_parts(uri: Seq<char>) -> Option<Seq<Seq<char>>> {
    let parts = pieces(uri.skip("discord://"@.len() as int), '/');
    if starts_with(uri, "discord://"@) && parts.len() == 3 && parts[0].len() > 0 && parts[1].len()
        > 0 && parts[2].len() > 0 {
        Some(parts)
    } else {
        None
    }
}

/// Parses a `discord://{id}/{token}/{message_id}` URI.
pub fn parse_uri(uri: &str) -> (parsed: Result<ParsedUri, UriError>)
    ensures
        match parsed {
            Ok(p) => uri_parts(uri@) == Some(seq![p.id@, p.token@, p.message_id@]),
            Err(e) => {
                &&& uri_parts(uri@) is None
                &&& e == if starts_with(uri@, "discord://"@) {
                    UriError::Malformed
                } else {
                    UriError::NotDiscord
                }
            },
        },
{
    let chars: Vec<char> = chars_of(uri);
    let rest: Vec<char> = match strip_prefix(chars.as_slice(), "discord://") {
        Some(rest) => rest,
        None => {
            return Err(UriError::NotDiscord);
        },
    };
    let parts: Vec<Vec<char>> = split_chars(rest.as_slice(), '/');
    let ghost views = char_views(parts@);
    assert(parts.len() == views.len());
    if parts.len() != 3 {
        return Err(UriError::Malformed);
    }
    assert(views[0] == parts[0]@ && views[1] == parts[1]@ && views[2] == parts[2]@);
    if parts[0].len() == 0 || parts[1].len() == 0 || parts[2].len() == 0 {
        return Err(UriError::Malformed);
    }
    let id: String = text_of(parts[0].as_slice());
    let token: String = text_of(parts[1].as_slice());
    let message_id: String = text_of(parts[2].as_slice());
    assert(views =~= seq![id@, token@, message_id@]);
    Ok(ParsedUri { id, token, message_id })
}

/// The addressing promise: a URI built from parts without slashes parses back
/// to those parts.
pub proof fn law_uri_round_trips(id: Seq<char>, token: Seq<char>, message_id: Seq<char>)
    requires
        id.len() > 0,
        token.len() > 0,
        message_id.len() > 0,
        !id.contains('/'),
        !token.contains('/'),
        !message_id.contains('/'),
    ensures
        uri_parts(uri_text(id, token, message_id)) == Some(seq![id, token, message_id]),
{
    let uri = uri_text(id, token, message_id);
    let prefix = "discord://"@;
    let rest = uri.skip(prefix.len() as int);
    assert(uri.take(prefix.len() as int) =~= prefix);
    let tail = token.push('/') + message_id;
    assert(rest =~= id.push('/') + tail);
    lemma_pieces_join(id, '/', tail);
    lemma_pieces_join(token, '/', message_id);
    lemma_one_piece(id, '/');
    lemma_one_piece(token, '/');
    lemma_one_piece(message_id, '/');
    assert(pieces(rest, '/') =~= seq![id, token, message_id]);
}

/// A line of a webhook list that holds no webhook: blank, or a comment.
pub open spec fn is_skipped(line: Seq<char>) -> bool {
    trimmed(line).len() == 0 || trimmed(line)[0] == '#'
}

/// Whether a line is `<id>:<token>`, split at its first colon.
pub open spec fn is_webhook_line(line: Seq<char>, id: Seq<char>, token: Seq<char>) -> bool {
    !id.contains(':') && trimmed(line) == id.push(':') + token
}

/// Whether the webhooks are those of the lines, in order.
pub open spec fn are_webhooks(lines: Seq<Seq<char>>, webhooks: Seq<Webhook>) -> bool
    decreases lines.len(),
{
    if lines.len() == 0 {
        webhooks.len() == 0
    } else if is_skipped(lines.last()) {
        are_webhooks(lines.drop_last(), webhooks)
    } else {
        &&& webhooks.len() > 0
        &&& is_webhook_line(lines.last(), webhooks.last().id@, webhooks.last().token@)
        &&& are_webhooks(lines.drop_last(), webhooks.drop_last())
    }
}

/// Whether a line is neither skipped nor a webhook.
pub open spec fn is_bad_line(line: Seq<char>) -> bool {
    !is_skipped(line) && !trimmed(line).contains(':')
}

/// Reads a webhook list: one `<id>:<token>` per line, blank lines and lines
/// that start with `#` ignored. The error is the number of the first line that
/// is none of these, counted from one.
pub fn parse_webhooks(text: &str) -> (webhooks: Result<Vec<Webhook>, usize>)
    ensures
        ({
            let lines = pieces(text@, '\n');
            match webhooks {
                Ok(list) => {
                    &&& are_webhooks(lines, list@)
                    &&& forall|i: int| 0 <= i < lines.len() ==> !is_bad_line(#[trigger] lines[i])
                },
                Err(number) => {
                    &&& 1 <= number <= lines.len()
                    &&& is_bad_line(lines[number - 1])
                    &&& forall|i: int|
                        0 <= i < number - 1 ==> !is_bad_line(#[trigger] lines[i])
                },
            }
        }),
{
    let chars: Vec<char> = chars_of(text);
    let lines: Vec<Vec<char>> = split_chars(chars.as_slice(), '\n');
    let ghost views = char_views(lines@);
    let mut webhooks: Vec<Webhook> = Vec::new();
    let mut i: usize = 0;
    proof {
        assert(views.take(0) =~= Seq::<Seq<char>>::empty());
    }
    while i < lines.len()
        invariant
            views == char_views(lines@),
            views == pieces(text@, '\n'),
            i <= lines.len(),
            are_webhooks(views.take(i as int), webhooks@),
            forall|k: int| 0 <= k < i ==> !is_bad_line(#[trigger] views[k]),
        decreases lines.len() - i,
    {
        proof {
            assert(views[i as int] == lines[i as int]@);
            assert(views.take(i + 1).drop_last() =~= views.take(i as int));
            assert(views.take(i + 1).last() == views[i as int]);
        }
        let line: Vec<char> = trim(lines[i].as_slice());
        if line.len() != 0 && line[0] != '#' {
            let colon: usize = match find_char(line.as_slice(), ':') {
                Some(colon) => colon,
                None => {
                    return Err(i + 1);
                },
            };
            let id: String = text_of(vstd::slice::slice_subrange(line.as_slice(), 0, colon));
            let token: String = text_of(
                vstd::slice::slice_subrange(line.as_slice(), colon + 1, line.len()),
            );
            proof {
                assert(id@ =~= line@.take(colon as int));
                assert(line@ =~= id@.push(':') + token@);
                assert(line@[colon as int] == ':');
            }
            let ghost before = webhooks@;
            webhooks.push(Webhook { id, token });
            assert(webhooks@.drop_last() =~= before);
        }
        i += 1;
    }
    proof {
        assert(views.take(i as int) =~= views);
    }
    Ok(webhooks)
}

/// A URI that parses is the one that its three parts make; none of them is empty
/// or holds a slash.
pub proof fn law_uris_are_their_parts(uri: Seq<char>)
    ensures
        uri_parts(uri) matches Some(parts) ==> {
            &&& parts.len() == 3
            &&& parts[0].len() > 0 && !parts[0].contains('/')
            &&& parts[1].len() > 0 && !parts[1].contains('/')
            &&& parts[2].len() > 0 && !parts[2].contains('/')
            &&& uri == uri_text(parts[0], parts[1], parts[2])
        },
{
    if uri_parts(uri) is Some {
        let parts = uri_parts(uri)->0;
        let prefix = "discord://"@;
        let rest = uri.skip(prefix.len() as int);
        law_pieces_join_back(rest, '/');
        let two = parts.drop_last();
        let one = two.drop_last();
        assert(separated(one, '/') == parts[0]);
        assert(separated(two, '/') == parts[0].push('/') + parts[1]);
        assert(separated(parts, '/') == (parts[0].push('/') + parts[1]).push('/') + parts[2]);
        assert(uri =~= prefix + rest);
        assert(uri =~= uri_text(parts[0], parts[1], parts[2]));
    }
}

/// The URI of a message is its parts behind the scheme, with slashes between them.
pub proof fn law_uris_name_their_message(id: Seq<char>, token: Seq<char>, message_id: Seq<char>)
    ensures
        starts_with(uri_text(id, token, message_id), "discord://"@),
        uri_text(id, token, message_id).skip("discord://"@.len() as int) == separated(
            seq![id, token, message_id],
            '/',
        ),
{
    let uri = uri_text(id, token, message_id);
    let prefix = "discord://"@;
    let parts = seq![id, token, message_id];
    assert(uri.take(prefix.len() as int) =~= prefix);
    assert(parts.drop_last() =~= seq![id, token]);
    assert(parts.drop_last().drop_last() =~= seq![id]);
    assert(separated(parts.drop_last().drop_last(), '/') == id);
    assert(separated(parts.drop_last(), '/') == id.push('/') + token);
    assert(separated(parts, '/') == (id.push('/') + token).push('/') + message_id);
    assert(uri.skip(prefix.len() as int) =~= separated(parts, '/'));
}

/// A further line of a list adds the webhook that it writes, split at its first
/// colon, behind those of the lines before. Blank lines and comments add none.
pub proof fn law_lines_add_their_webhook(
    lines: Seq<Seq<char>>,
    line: Seq<char>,
    id: Seq<char>,
    token: Seq<char>,
    webhooks: Seq<Webhook>,
)
    requires
        are_webhooks(lines.push(line), webhooks),
    ensures
        trimmed(line).len() == 0 ==> are_webhooks(lines, webhooks),
        trimmed(line).len() > 0 && trimmed(line)[0] == '#' ==> are_webhooks(lines, webhooks),
        trimmed(line) == id + seq![':'] + token && !id.contains(':') && trimmed(line)[0] != '#'
            ==> {
            &&& webhooks.len() > 0
            &&& webhooks.last().id@ == id
            &&& webhooks.last().token@ == token
            &&& are_webhooks(lines, webhooks.drop_last())
        },
        are_webhooks(Seq::empty(), webhooks) ==> webhooks.len() == 0,
{
    assert(lines.push(line).drop_last() =~= lines);
    assert(lines.push(line).last() == line);
    if trimmed(line) == id + seq![':'] + token && !id.contains(':') && trimmed(line)[0] != '#' {
        let text = trimmed(line);
        let found = webhooks.last().id@;
        assert(is_webhook_line(line, found, webhooks.last().token@));
        assert(text == found.push(':') + webhooks.last().token@);
        if found.len() < id.len() {
            assert(text[found.len() as int] == ':');
            assert(id[found.len() as int] == ':');
        }
        if id.len() < found.len() {
            assert(text[id.len() as int] == ':');
            assert(found[id.len() as int] == ':');
        }
        assert(found =~= text.take(id.len() as int));
        assert(id =~= text.take(id.len() as int));
        assert(webhooks.last().token@ =~= text.skip(id.len() as int + 1));
        assert(token =~= text.skip(id.len() as int + 1));
    }
}

/// A line is refused exactly if it has something, is no comment, and has no colon.
pub proof fn law_bad_lines_have_no_colon(line: Seq<char>)
    ensures
        is_bad_line(line) <==> {
            &&& trimmed(line).len() > 0
            &&& trimmed(line)[0] != '#'
            &&& forall|i: int| 0 <= i < trimmed(line).len() ==> trimmed(line)[i] != ':'
        },
{
    let text = trimmed(line);
    if text.contains(':') {
        let i = choose|i: int| 0 <= i < text.len() && text[i] == ':';
        assert(text[i] == ':');
    } else {
        assert forall|i: int| 0 <= i < text.len() implies text[i] != ':' by {
            if text[i] == ':' {
                assert(text.contains(text[i]));
            }
        }
    }
}

} // verus!
