//! The sprites service: its addresses, its data, and what its answers mean.

use vstd::prelude::*;

use crate::sprites::exec::{lossy_text, utf8_lossy};
use crate::text::{concat, decimal, number, str_eq, trim, trimmed};

verus! {

/// What a new sprite is to be like.
#[derive(Debug, PartialEq, Eq)]
pub struct CreateSpriteRequest {
    pub name: String,
    pub config: Option<SpriteConfig>,
    pub environment: Option<Vec<(String, String)>>,
}

/// The resources of a sprite.
#[derive(Debug, PartialEq, Eq)]
pub struct SpriteConfig {
    pub ram_mb: Option<u32>,
    pub cpus: Option<u8>,
    pub region: Option<String>,
    pub storage_gb: Option<u32>,
}

/// A new sprite.
#[derive(Debug, PartialEq, Eq)]
pub struct CreateSpriteResponse {
    pub name: String,
}

/// What the service knows of a sprite.
#[derive(Debug, PartialEq, Eq)]
pub struct SpriteInfo {
    pub name: String,
    pub status: String,
    pub config: Option<SpriteConfig>,
    pub url: Option<String>,
    pub created_at: Option<String>,
    pub updated_at: Option<String>,
}

/// The sprites of an account.
#[derive(Debug, PartialEq, Eq)]
pub struct SpriteList {
    pub sprites: Vec<SpriteInfo>,
    pub has_more: bool,
}

/// What the service says of a request that failed.
#[derive(Debug, PartialEq, Eq)]
pub struct ApiError {
    pub error: String,
    pub message: String,
}

/// Where sprites are made and listed.
pub fn sprites_url() -> (r: String)
    ensures
        r@ == "https://api.sprites.dev/v1/sprites"@,
{
    "https://api.sprites.dev/v1/sprites".to_owned()
}

/// The address of a sprite.
pub open spec fn sprite_address(name: Seq<char>) -> Seq<char> {
    "https://api.sprites.dev/v1/sprites/"@ + name
}

/// The address of a sprite.
pub fn sprite_url(name: &str) -> (r: String)
    ensures
        r@ == sprite_address(name@),
{
    concat("https://api.sprites.dev/v1/sprites/", name)
}

/// Where a sprite is stopped.
pub fn stop_url(name: &str) -> (r: String)
    ensures
        r@ == sprite_address(name@) + "/stop"@,
{
    concat(&sprite_url(name), "/stop")
}

/// Where a file of a sprite is read.
pub fn read_file_url(name: &str, path: &str) -> (r: String)
    ensures
        r@ == sprite_address(name@) + "/fs/read?path="@ + path@,
{
    concat(&concat(&sprite_url(name), "/fs/read?path="), path)
}

/// Where a file of a sprite is written.
pub fn write_file_url(name: &str, path: &str) -> (r: String)
    ensures
        r@ == sprite_address(name@) + "/fs/write?path="@ + path@,
{
    concat(&concat(&sprite_url(name), "/fs/write?path="), path)
}

/// Where an organisation's tokens are made.
pub fn tokens_url(org: &str) -> (r: String)
    ensures
        r@ == "https://api.sprites.dev/v1/organizations/"@ + org@ + "/tokens"@,
{
    concat(&concat("https://api.sprites.dev/v1/organizations/", org), "/tokens")
}

/// Where a sprite's control connection is opened.
pub fn control_url(name: &str) -> (r: String)
    ensures
        r@ == "wss://api.sprites.dev/v1/sprites/"@ + name@ + "/control"@,
{
    concat(&concat("wss://api.sprites.dev/v1/sprites/", name), "/control")
}

/// The header that carries a token of the service.
pub fn bearer(token: &str) -> (r: String)
    ensures
        r@ == "Bearer "@ + token@,
{
    concat("Bearer ", token)
}

/// The header that carries a token of Fly.
pub fn fly_authorization(token: &str) -> (r: String)
    ensures
        r@ == "FlyV1 "@ + token@,
{
    concat("FlyV1 ", token)
}

/// What to do with an answer.
#[derive(Debug, PartialEq, Eq, Clone, Copy, Structural)]
pub enum Answered {
    /// Read what it holds.
    Success,
    /// There is no such sprite.
    Missing,
    /// Report the error.
    Failure,
}

/// What to do with the answer to a request.
pub fn request_outcome(status: u16) -> (r: Answered)
    ensures
        r == (if 200 <= status < 300 {
            Answered::Success
        } else {
            Answered::Failure
        }),
{
    if 200 <= status && status < 300 {
        Answered::Success
    } else {
        Answered::Failure
    }
}

/// What to do with the answer to a question about a sprite.
pub fn lookup_outcome(status: u16) -> (r: Answered)
    ensures
        r == (if status == 404 {
            Answered::Missing
        } else if 200 <= status < 300 {
            Answered::Success
        } else {
            Answered::Failure
        }),
{
    if status == 404 {
        Answered::Missing
    } else {
        request_outcome(status)
    }
}

/// What is said of a request that failed, with the status as text and what the
/// service says of it, where it could be read.
pub fn api_error(status: &str, body: Option<ApiError>) -> (r: String)
    ensures
        r@ == (match body {
            Some(err) => "API error ("@ + status@ + "): "@ + if err.message@.len() == 0 {
                err.error@
            } else {
                err.message@
            },
            None => "API error ("@ + status@ + ")"@,
        }),
{
    let mut out: String = concat("API error (", status);
    match body {
        Some(err) => {
            out.append("): ");
            if err.message.as_str().is_empty() {
                out.append(&err.error);
            } else {
                out.append(&err.message);
            }
        },
        None => {
            out.append(")");
        },
    }
    out
}

/// The name of the file in which a file of a sprite is opened.
pub fn open_file_name(pid: u32, extension: &str) -> (r: String)
    ensures
        r@ == "spritebox-open-"@ + decimal(pid as nat) + "."@ + extension@,
{
    concat(&concat(&concat("spritebox-open-", &number(pid as u64)), "."), extension)
}

/// The name of the file in which an image waits to be sent.
pub fn paste_file_name(pid: u32) -> (r: String)
    ensures
        r@ == "spritebox-paste-"@ + decimal(pid as nat) + ".png"@,
{
    concat(&concat("spritebox-paste-", &number(pid as u64)), ".png")
}

/// Whether an answer allows what was asked: it is `allow`, but for white space
/// around it.
pub fn allows(answer: &str) -> (r: bool)
    ensures
        r == (trimmed(answer@) == "allow"@),
{
    str_eq(&trim(answer), "allow")
}

/// Whether the user allowed it, where the prompt ran.
pub fn prompt_answer(ran: bool, stdout: &[u8]) -> (r: Option<bool>)
    ensures
        r == (if ran {
            Some(trimmed(utf8_lossy(stdout@)) == "allow"@)
        } else {
            None
        }),
{
    if !ran {
        return None;
    }
    Some(allows(&lossy_text(stdout)))
}

/// What was complained of, but for white space around it.
pub open spec fn complaint(said: Seq<char>) -> Seq<char> {
    if trimmed(said).len() == 0 {
        "clipboard image export failed"@
    } else {
        trimmed(said)
    }
}

/// What is said of an image that could not be taken from the clipboard, given
/// what was complained of.
pub fn clipboard_complaint(said: &str) -> (r: String)
    ensures
        r@ == complaint(said@),
{
    let said: String = trim(said);
    if said.as_str().is_empty() {
        "clipboard image export failed".to_owned()
    } else {
        said
    }
}

/// What is said of an image that could not be taken from the clipboard.
pub fn clipboard_failure(stderr: &[u8]) -> (r: String)
    ensures
        r@ == complaint(utf8_lossy(stderr@)),
{
    clipboard_complaint(&lossy_text(stderr))
}

/// The address of a sprite is its name under the service's.
pub proof fn law_sprite_addresses(name: Seq<char>)
    ensures
        sprite_address(name) == "https://api.sprites.dev/v1/sprites/"@ + name,
{
}

/// What was complained of is told without the blanks around it, and something
/// is told also where nothing was complained of.
pub proof fn law_complaints(front: Seq<char>, said: Seq<char>, back: Seq<char>)
    requires
        crate::text::all_blank(front),
        crate::text::all_blank(back),
        said.len() > 0 ==> '!' <= said[0] && said[0] <= '~' && '!' <= said.last() && said.last()
            <= '~',
    ensures
        said.len() > 0 ==> complaint(front + said + back) == said,
        said.len() == 0 ==> complaint(front + said + back) == "clipboard image export failed"@,
{
    crate::text::law_trimmed_between(front, said, back);
}

/// A request went through where its status is one of those from 200 up to 299.
/// What was looked for is missing where the status is 404, and nothing else
/// tells that.
pub proof fn law_statuses(status: u16, asked: Answered, looked: Answered)
    requires
        call_ensures(request_outcome, (status,), asked),
        call_ensures(lookup_outcome, (status,), looked),
    ensures
        asked == Answered::Success <==> status / 100 == 2,
        asked == Answered::Failure <==> status / 100 != 2,
        looked == Answered::Missing <==> status == 404,
        looked == Answered::Success <==> status / 100 == 2,
        looked == Answered::Failure <==> status / 100 != 2 && status != 404,
{
}

/// What the service answers to a request that failed is told with the status:
/// its message, or the short word for it where there is none.
pub proof fn law_service_errors(status: &str, err: ApiError, r: String, bare: String)
    requires
        call_ensures(api_error, (status, Some(err)), r),
        call_ensures(api_error, (status, None), bare),
    ensures
        err.message@.len() > 0 ==> r@ == "API error ("@ + status@ + "): "@ + err.message@,
        err.message@.len() == 0 ==> r@ == "API error ("@ + status@ + "): "@ + err.error@,
        bare@ == "API error ("@ + status@ + ")"@,
{
}

} // verus!
