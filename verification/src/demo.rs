//! The texts that the scripted client shows: its commands, and the JSON that comes back.
use vstd::prelude::*;

verus! {

/// What `serde_json` makes of a text: its JSON value laid out over indented lines, or nothing
/// where the text is not JSON.
pub uninterp spec fn laid_out(text: Seq<char>) -> Option<Seq<char>>;

/// Reads the text with `serde_json::from_str` as a `serde_json::Value` and writes that value
/// with `serde_json::to_string_pretty`.
///
/// Claimed: the outcome depends on the text alone. Left unsaid: which texts are JSON, and how
/// a value is laid out.
#[verifier::external_body]
fn lay_out(text: &str) -> (out: Option<String>)
    ensures
        match out {
            Some(shown) => laid_out(text@) == Some(shown@),
            None => laid_out(text@) is None,
        },
{
    let value = serde_json::from_str::<serde_json::Value>(text).ok()?;
    serde_json::to_string_pretty(&value).ok()
}

/// The laid out text, or the text as it came where there is none.
pub fn shown_or(laid: Option<String>, text: &str) -> (shown: String)
    ensures
        shown@ == (match laid {
            Some(out) => out@,
            None => text@,
        }),
{
    match laid {
        Some(out) => out,
        None => String::from_str(text),
    }
}

/// What is shown of a text: its JSON laid out, or the text as it came if it is not JSON.
pub open spec fn shown(text: Seq<char>) -> Seq<char> {
    match laid_out(text) {
        Some(out) => out,
        None => text,
    }
}

/// What is shown of a text frame.
pub fn shown_text(text: &str) -> (out: String)
    ensures
        out@ == shown(text@),
        laid_out(text@) matches Some(laid) ==> out@ == laid,
        laid_out(text@) is None ==> out@ == text@,
{
    shown_or(lay_out(text), text)
}

/// The laid out answer, or a complaint that names the path it came from.
pub fn answer_or(laid: Option<String>, path: &str) -> (answer: Result<String, String>)
    ensures
        match laid {
            Some(out) => answer == Ok::<String, String>(out),
            None => answer matches Err(message) && message@ == "invalid JSON from "@ + path@,
        },
{
    match laid {
        Some(out) => Ok(out),
        None => {
            let mut message = String::from_str("invalid JSON from ");
            message.append(path);
            Err(message)
        },
    }
}

/// What is shown of the body of an answer from `path`, which has to be JSON.
pub fn answer_text(body: &str, path: &str) -> (answer: Result<String, String>)
    ensures
        match laid_out(body@) {
            Some(out) => answer matches Ok(text) && text@ == out,
            None => answer matches Err(message) && message@ == "invalid JSON from "@ + path@,
        },
{
    answer_or(lay_out(body), path)
}

/// The decimal digits of `n`, without leading zeros.
pub open spec fn decimal(n: nat) -> Seq<char>
    decreases n,
{
    let last = "0123456789"@.subrange((n % 10) as int, (n % 10 + 1) as int);
    if n < 10 {
        last
    } else {
        decimal(n / 10) + last
    }
}

/// Appends the decimal digits of `n`.
fn append_decimal(text: &mut String, n: u64)
    ensures
        final(text)@ == old(text)@ + decimal(n as nat),
    decreases n,
{
    let ghost before = text@;
    if n >= 10 {
        append_decimal(text, n / 10);
    }
    proof {
        reveal_strlit("0123456789");
    }
    let digit = (n % 10) as usize;
    text.append("0123456789".substring_char(digit, digit + 1));
    assert(text@ =~= before + decimal(n as nat));
}

/// The JSON text of an order request.
pub open spec fn order_json(side: Seq<char>, price: u64, qty: u64) -> Seq<char> {
    "{\"side\":\""@ + side + "\",\"price\":"@ + decimal(price as nat) + ",\"qty\":"@ + decimal(
        qty as nat,
    ) + "}"@
}

/// The command line that posts an order to the service at `base`.
pub fn post_command(base: &str, side: &str, price: u64, qty: u64) -> (command: String)
    ensures
        command@ == "$ curl -s -X POST "@ + base@
            + "/orders \\\n\t-H 'Content-Type: application/json' \\\n\t-d '"@ + order_json(
            side@,
            price,
            qty,
        ) + "'"@,
        command@ == "$ curl -s -X POST "@ + base@
            + "/orders \\\n\t-H 'Content-Type: application/json' \\\n\t-d '"@ + (
        "{\"side\":\""@ + side@ + "\",\"price\":"@ + decimal(price as nat) + ",\"qty\":"@ + decimal(
            qty as nat,
        ) + "}"@) + "'"@,
{
    let mut command = String::from_str("$ curl -s -X POST ");
    command.append(base);
    command.append("/orders \\\n\t-H 'Content-Type: application/json' \\\n\t-d '");
    let ghost head = command@;
    command.append("{\"side\":\"");
    command.append(side);
    command.append("\",\"price\":");
    append_decimal(&mut command, price);
    command.append(",\"qty\":");
    append_decimal(&mut command, qty);
    command.append("}");
    assert(command@ =~= head + order_json(side@, price, qty));
    command.append("'");
    command
}

/// The command line that reads the book of the service at `base`.
pub fn get_command(base: &str) -> (command: String)
    ensures
        command@ == "$ curl -s "@ + base@ + "/orderbook"@,
{
    let mut command = String::from_str("$ curl -s ");
    command.append(base);
    command.append("/orderbook");
    command
}

/// Decimal notation: a number below ten is one digit, counted up from `0`, and a larger one is
/// written as its tens followed by its last digit.
pub proof fn decimal_notation(n: nat)
    ensures
        n < 10 ==> decimal(n).len() == 1 && decimal(n)[0] as u32 == '0' as u32 + n,
        n >= 10 ==> decimal(n) == decimal(n / 10) + decimal(n % 10),
{
    reveal_strlit("0123456789");
    if n >= 10 {
        assert((n % 10) % 10 == n % 10);
    }
}

/// No leading zeros: only zero itself is written with a zero in front.
pub proof fn decimal_has_no_leading_zero(n: nat)
    ensures
        decimal(n).len() > 0,
        n > 0 ==> decimal(n)[0] != '0',
    decreases n,
{
    decimal_notation(n);
    if n >= 10 {
        decimal_has_no_leading_zero(n / 10);
        assert(decimal(n)[0] == decimal(n / 10)[0]);
    }
}

} // verus!
