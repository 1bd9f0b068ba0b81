//! The decisions of the web handlers: who is asking, what a form says, which
//! page a path names, and what a request does to the ledger.
//!
//! Rendering pages and talking to the network is the program's job; the
//! handlers here answer with plain values: a redirect location, or an error
//! with its status code and reason.

use vstd::prelude::*;

use crate::config::{AppConfig, ServerConfig};
use crate::decimal::{amount_parts, amount_text};
use crate::ledger::{system_owner, Ledger, LedgerError};
use crate::model::{
    create_deposit, ensure_points_account, find_asset, find_owner, get_account_balance,
    get_market_by_slug, parse_amount_fits, parse_fits, parsed_micros, position_of_asset,
    position_of_owner, Amount, AssetId, Market, OutcomeId, Balance,
};
use crate::text::{
    chars_of, parse_int, parse_int_range, str_eq, strings_view, strip_suffix, stripped, trim_start_char, trimmed_start,
};

verus! {

/// An error of a handler: the ledger refused an operation, or the request
/// is answered with an error page.
#[derive(Clone, Debug)]
pub enum Error {
    Database(LedgerError),
    /// The status code and the reason shown to the user.
    Response(u16, String),
}

impl From<LedgerError> for Error {
    fn from(e: LedgerError) -> (r: Error) {
        Error::Database(e)
    }
}

impl vstd::std_specs::convert::FromSpecImpl<LedgerError> for Error {
    open spec fn obeys_from_spec() -> bool {
        true
    }

    open spec fn from_spec(e: LedgerError) -> Error {
        Error::Database(e)
    }
}

/// Whether `r` is the error page with `status` and `reason`.
pub open spec fn is_response<T>(r: Result<T, Error>, status: u16, reason: Seq<char>) -> bool {
    r matches Err(Error::Response(s, m)) && s == status && m@ == reason
}

/// What a handler knows about the request it serves.
#[derive(Clone, Debug)]
pub struct Context {
    /// Prefix under which the app is served, from the server configuration.
    pub prefix: String,
    /// Suffix removed from emails when they are shown.
    pub email_suffix: String,
    /// Email address of the user making the request.
    pub user_email: String,
    /// Whether the user is the administrator.
    pub is_admin: bool,
    /// The user's liquid balance (in their global points account).
    pub user_points: Amount,
}

/// The (key, value) pairs that `form_urlencoded::parse` reads from a body.
pub uninterp spec fn form_pairs(body: Seq<char>) -> Seq<(Seq<char>, Seq<char>)>;

/// The pairs of an `application/x-www-form-urlencoded` body, decoded, in order.
#[verifier::external_body]
fn parse_form(body: &str) -> (r: Vec<(String, String)>)
    ensures
        r@.len() == form_pairs(body@).len(),
        forall|i: int| 0 <= i < r@.len() ==> (#[trigger] r@[i]).0@ == form_pairs(body@)[i].0
            && r@[i].1@ == form_pairs(body@)[i].1,
{
    let mut r = Vec::new();
    for (key, value) in form_urlencoded::parse(body.as_bytes()) {
        r.push((key.into_owned(), value.into_owned()));
    }
    r
}

/// The view of a list of pairs of strings.
pub open spec fn pairs_view(pairs: Seq<(String, String)>) -> Seq<(Seq<char>, Seq<char>)> {
    pairs.map_values(|p: (String, String)| (p.0@, p.1@))
}

fn parse_form_pairs(body: &str) -> (r: Vec<(String, String)>)
    ensures
        pairs_view(r@) == form_pairs(body@),
{
    let r = parse_form(body);
    assert(pairs_view(r@) =~= form_pairs(body@));
    r
}

impl Context {
    /// Gather what the handlers need to know about the user: their points
    /// account (opened with the opening balance if they are new), its
    /// balance, and whether they are the administrator.
    pub fn new(
        config_app: &AppConfig,
        config_server: &ServerConfig,
        user_email: &str,
        tx: &mut Ledger,
    ) -> (r: Result<Context, LedgerError>)
        requires
            old(tx).wf(),
            old(tx).account_index(0, 0, user_email@) is None ==> config_app.opening_balance_micros > 0,
        ensures
            final(tx).wf(),
            old(tx).account_index(0, 0, user_email@) is Some ==> *final(tx) == *old(tx),
            old(tx).account_index(0, 0, user_email@) is None && r is Ok ==> {
                &&& final(tx).balance_of(0, 0, user_email@) == config_app.opening_balance_micros
                &&& final(tx).balance_of(0, 0, system_owner()) == old(tx).balance_of(0, 0, system_owner())
                    - config_app.opening_balance_micros
                &&& forall|m: int, a: int, o: Seq<char>| !(m == 0 && a == 0 && (o == user_email@ || o == system_owner()))
                    ==> #[trigger] final(tx).balance_of(m, a, o) == old(tx).balance_of(m, a, o)
            },
            match r {
                Ok(ctx) => {
                    &&& ctx.prefix@ == config_server.prefix@
                    &&& ctx.email_suffix@ == config_app.email_suffix@
                    &&& ctx.user_email@ == user_email@
                    &&& ctx.is_admin == (config_app.admin_email@ == user_email@)
                    &&& ctx.user_points == Amount(final(tx).balance_of(0, 0, user_email@) as i64, AssetId(0))
                },
                Err(e) => e == LedgerError::Full || e == LedgerError::Overflow,
            },
            r is Err <==> old(tx).account_index(0, 0, user_email@) is None && (old(tx).accounts.len() == i64::MAX
                || old(tx).events.len() == i64::MAX
                || old(tx).balances@[0] - config_app.opening_balance_micros < i64::MIN),
    {
        let account = ensure_points_account(tx, config_app, user_email)?;
        let user_points = match get_account_balance(tx, account) {
            Ok(b) => b,
            Err(e) => return Err(e),
        };
        Ok(Context {
            prefix: config_server.prefix.clone(),
            email_suffix: config_app.email_suffix.clone(),
            user_email: user_email.to_owned(),
            is_admin: str_eq(config_app.admin_email.as_str(), user_email),
            user_points,
        })
    }

    /// The location of a market's page, followed by `suffix`.
    pub fn market_url(&self, market: &Market, suffix: &str) -> (r: String)
        ensures
            r@ == self.prefix@ + "/market/"@ + market.slug@ + suffix@,
    {
        let mut r = self.prefix.clone();
        r.append("/market/");
        r.append(market.slug.as_str());
        r.append(suffix);
        r
    }

    /// How an email is shown: without the configured suffix, when it has it.
    pub fn view_email(&self, email: &str) -> (r: String)
        ensures
            r@ == match stripped(email@, self.email_suffix@) {
                Some(s) => s,
                None => email@,
            },
    {
        match strip_suffix(email, self.email_suffix.as_str()) {
            Some(s) => s,
            None => email.to_owned(),
        }
    }

    /// The location of the index page.
    pub fn root_url(&self) -> (r: String)
        ensures
            r@ == if self.prefix@.len() == 0 { "/"@ } else { self.prefix@ },
    {
        if self.prefix.as_str().is_empty() {
            "/".to_owned()
        } else {
            self.prefix.clone()
        }
    }

    /// Refuse the request unless the user is the administrator.
    pub fn ensure_admin(&self) -> (r: Result<(), Error>)
        ensures
            r is Ok <==> self.is_admin,
            !self.is_admin ==> is_response(r, 403, "This page is only accessible to admins."@),
    {
        if self.is_admin {
            Ok(())
        } else {
            Err(self.forbidden("This page is only accessible to admins."))
        }
    }

    /// The error page for a bad request.
    pub fn bad_request(&self, reason: &str) -> (r: Error)
        ensures
            r matches Error::Response(s, m) && s == 400 && m@ == reason@,
    {
        Error::Response(400, reason.to_owned())
    }

    pub fn forbidden(&self, reason: &str) -> (r: Error)
        ensures
            r matches Error::Response(s, m) && s == 403 && m@ == reason@,
    {
        Error::Response(403, reason.to_owned())
    }

    pub fn not_found(&self, reason: &str) -> (r: Error)
        ensures
            r matches Error::Response(s, m) && s == 404 && m@ == reason@,
    {
        Error::Response(404, reason.to_owned())
    }

    pub fn conflict(&self, reason: &str) -> (r: Error)
        ensures
            r matches Error::Response(s, m) && s == 409 && m@ == reason@,
    {
        Error::Response(409, reason.to_owned())
    }
}

// ---------------------------------------------------------------------------
// The amount of a deposit form.

/// Reading the pairs of an amount form, with the amount read so far: every
/// key must be `amount`, and every value an amount; the last one counts.
pub open spec fn scan_amount_form(pairs: Seq<(Seq<char>, Seq<char>)>, current: int) -> Result<int, Seq<char>>
    decreases pairs.len(),
{
    if pairs.len() == 0 {
        Ok(current)
    } else if pairs[0].0 == "amount"@ {
        match parsed_micros(trimmed_start(pairs[0].1, '$')) {
            Some(v) => scan_amount_form(pairs.drop_first(), v),
            None => Err("Failed to parse amount."@),
        }
    } else {
        Err("Unexpected form data."@)
    }
}

/// Whether reading the amounts that the scan of an amount form reaches stays
/// within `i64` (see `parse_fits`).
pub open spec fn amount_form_fits(pairs: Seq<(Seq<char>, Seq<char>)>) -> bool
    decreases pairs.len(),
{
    if pairs.len() == 0 {
        true
    } else if pairs[0].0 == "amount"@ {
        parse_fits(trimmed_start(pairs[0].1, '$')) && (parsed_micros(trimmed_start(pairs[0].1, '$')) is Some
            ==> amount_form_fits(pairs.drop_first()))
    } else {
        true
    }
}

proof fn lemma_scan_amount_in_range(pairs: Seq<(Seq<char>, Seq<char>)>, current: int)
    requires
        amount_form_fits(pairs),
        i64::MIN <= current <= i64::MAX,
    ensures
        scan_amount_form(pairs, current) matches Ok(v) ==> i64::MIN <= v <= i64::MAX,
    decreases pairs.len(),
{
    if pairs.len() > 0 && pairs[0].0 == "amount"@ {
        let t = trimmed_start(pairs[0].1, '$');
        if let Some(v) = parsed_micros(t) {
            lemma_scan_amount_in_range(pairs.drop_first(), v);
        }
    }
}

/// The positive amount of points that an amount form asks for, in micros, or
/// the reason it is refused.
pub open spec fn form_amount(pairs: Seq<(Seq<char>, Seq<char>)>) -> Result<int, Seq<char>> {
    match scan_amount_form(pairs, 0) {
        Ok(v) => if v <= 0 {
            Err("Amount must be greater than 0, but got "@ + amount_text(v, 6) + "."@)
        } else {
            Ok(v)
        },
        Err(m) => Err(m),
    }
}

/// The positive amount of points that the pairs of a deposit form ask for.
///
/// Every key must be `amount` ("Unexpected form data." otherwise), and its
/// value an amount, with an optional leading `$` ("Failed to parse amount."
/// otherwise); the last one counts, and it must be more than zero.
pub fn amount_from_form(ctx: &Context, pairs: &Vec<(String, String)>) -> (r: Result<Amount, Error>)
    requires
        amount_form_fits(pairs_view(pairs@)),
    ensures
        match form_amount(pairs_view(pairs@)) {
            Ok(v) => r == Ok::<Amount, Error>(Amount(v as i64, AssetId(0))) && 0 < v <= i64::MAX,
            Err(m) => is_response(r, 400, m),
        },
{
    proof {
        lemma_scan_amount_in_range(pairs_view(pairs@), 0);
    }
    let mut amount = AssetId::POINTS().zero();
    assert(pairs_view(pairs@).subrange(0, pairs@.len() as int) =~= pairs_view(pairs@));
    let mut i: usize = 0;
    while i < pairs.len()
        invariant
            i <= pairs.len(),
            amount.1 == AssetId(0),
            amount_form_fits(pairs_view(pairs@).subrange(i as int, pairs@.len() as int)),
            scan_amount_form(pairs_view(pairs@), 0) == scan_amount_form(
                pairs_view(pairs@).subrange(i as int, pairs@.len() as int),
                amount.0 as int,
            ),
        decreases pairs.len() - i,
    {
        let ghost rest = pairs_view(pairs@).subrange(i as int, pairs@.len() as int);
        assert(rest[0] == (pairs@[i as int].0@, pairs@[i as int].1@));
        assert(rest.drop_first() =~= pairs_view(pairs@).subrange(i + 1, pairs@.len() as int));
        let key = pairs[i].0.as_str();
        if str_eq(key, "amount") {
            let value = trim_start_char(pairs[i].1.as_str(), '$');
            match AssetId::POINTS().parse_amount(value.as_str()) {
                None => return Err(ctx.bad_request("Failed to parse amount.")),
                Some(n) => amount = n,
            }
        } else {
            return Err(ctx.bad_request("Unexpected form data."));
        }
        i = i + 1;
    }
    assert(pairs_view(pairs@).subrange(i as int, pairs@.len() as int).len() == 0);
    if amount.0 <= 0 {
        let mut msg = String::new();
        msg.append("Amount must be greater than 0, but got ");
        msg.append(amount.to_string().as_str());
        msg.append(".");
        assert(msg@ =~= "Amount must be greater than 0, but got "@ + amount_text(amount.0 as int, 6) + "."@);
        return Err(Error::Response(400, msg));
    }
    Ok(amount)
}

/// Whether the amounts in the pairs of a deposit form can be read within `i64`.
fn amount_form_fits_exec(pairs: &Vec<(String, String)>) -> (r: bool)
    ensures
        r == amount_form_fits(pairs_view(pairs@)),
{
    assert(pairs_view(pairs@).subrange(0, pairs@.len() as int) =~= pairs_view(pairs@));
    let mut i: usize = 0;
    while i < pairs.len()
        invariant
            i <= pairs.len(),
            amount_form_fits(pairs_view(pairs@)) == amount_form_fits(
                pairs_view(pairs@).subrange(i as int, pairs@.len() as int),
            ),
        decreases pairs.len() - i,
    {
        let ghost rest = pairs_view(pairs@).subrange(i as int, pairs@.len() as int);
        assert(rest[0] == (pairs@[i as int].0@, pairs@[i as int].1@));
        assert(rest.drop_first() =~= pairs_view(pairs@).subrange(i + 1, pairs@.len() as int));
        if !str_eq(pairs[i].0.as_str(), "amount") {
            return true;
        }
        let value = trim_start_char(pairs[i].1.as_str(), '$');
        if !parse_amount_fits(value.as_str()) {
            return false;
        }
        if AssetId::POINTS().parse_amount(value.as_str()).is_none() {
            return true;
        }
        i = i + 1;
    }
    true
}

/// Read the key `amount` from a form body, into a positive amount of points.
///
/// This is `amount_from_form` on the pairs of the body, except that an
/// amount too large for `i64` is refused as "Amount is out of range.".
pub fn parse_form_amount(ctx: &Context, body: &str) -> (r: Result<Amount, Error>)
    ensures
        amount_form_fits(form_pairs(body@)) ==> match form_amount(form_pairs(body@)) {
            Ok(v) => r == Ok::<Amount, Error>(Amount(v as i64, AssetId(0))) && 0 < v <= i64::MAX,
            Err(m) => is_response(r, 400, m),
        },
        !amount_form_fits(form_pairs(body@)) ==> is_response(r, 400, "Amount is out of range."@),
{
    let pairs = parse_form_pairs(body);
    if !amount_form_fits_exec(&pairs) {
        return Err(ctx.bad_request("Amount is out of range."));
    }
    amount_from_form(ctx, &pairs)
}

// ---------------------------------------------------------------------------
// The order of a trade form.

/// What a trade form holds: the text of `amount_in`, the text of `min_out`,
/// and the asset ids `asset_in` and `asset_out` (points, 0, when absent).
pub type TradeFields = (Option<Seq<char>>, Option<Seq<char>>, int, int);

/// Reading the pairs of a trade form, on top of what was read so far. The
/// last value of a key counts.
pub open spec fn scan_trade_form(pairs: Seq<(Seq<char>, Seq<char>)>, f: TradeFields) -> Result<TradeFields, Seq<char>>
    decreases pairs.len(),
{
    if pairs.len() == 0 {
        Ok(f)
    } else {
        let (key, value) = pairs[0];
        if key == "amount_in"@ {
            scan_trade_form(pairs.drop_first(), (Some(value), f.1, f.2, f.3))
        } else if key == "min_out"@ {
            scan_trade_form(pairs.drop_first(), (f.0, Some(value), f.2, f.3))
        } else if key == "asset_in"@ {
            match parse_int(value) {
                Some(n) => scan_trade_form(pairs.drop_first(), (f.0, f.1, n, f.3)),
                None => Err("Invalid asset id for asset_in."@),
            }
        } else if key == "asset_out"@ {
            match parse_int(value) {
                Some(n) => scan_trade_form(pairs.drop_first(), (f.0, f.1, f.2, n)),
                None => Err("Invalid asset id for asset_out."@),
            }
        } else {
            Err("Unexpected form data."@)
        }
    }
}

/// The amount of one side of an order: its text must be there, for an asset
/// other than points, and be an amount.
pub open spec fn order_side(text: Option<Seq<char>>, asset: int, invalid: Seq<char>, missing: Seq<char>) -> Result<int, Seq<char>> {
    if text is Some && asset != 0 {
        match parsed_micros(text->0) {
            Some(n) => Ok(n),
            None => Err(invalid),
        }
    } else {
        Err(missing)
    }
}

/// Whether reading the amount of one side of an order stays within `i64`.
pub open spec fn side_fits(text: Option<Seq<char>>, asset: int) -> bool {
    text is Some && asset != 0 ==> parse_fits(text->0)
}

pub open spec fn in_side(f: TradeFields) -> Result<int, Seq<char>> {
    order_side(
        f.0,
        f.2,
        "Invalid amount_in amount or in asset id absent."@,
        "Missing amount_in, asset id, or invalid asset id."@,
    )
}

pub open spec fn out_side(f: TradeFields) -> Result<int, Seq<char>> {
    order_side(
        f.1,
        f.3,
        "Invalid min_out amount or in asset id absent."@,
        "Missing min_out amount, asset id, or invalid asset id."@,
    )
}

/// Whether reading the amounts of a trade form stays within `i64`, for the
/// amounts that are read.
pub open spec fn trade_form_fits(pairs: Seq<(Seq<char>, Seq<char>)>) -> bool {
    match scan_trade_form(pairs, (None, None, 0, 0)) {
        Ok(f) => side_fits(f.0, f.2) && (in_side(f) is Ok ==> side_fits(f.1, f.3)),
        Err(_) => true,
    }
}

/// The order of a trade form: the amount to sell (in micros) and its asset,
/// and the least amount to get (in micros) and its asset; or the reason the
/// form is refused.
pub open spec fn trade_form(pairs: Seq<(Seq<char>, Seq<char>)>) -> Result<(int, int, int, int), Seq<char>> {
    match scan_trade_form(pairs, (None, None, 0, 0)) {
        Err(m) => Err(m),
        Ok(f) => match in_side(f) {
            Err(m) => Err(m),
            Ok(amount_in) => match out_side(f) {
                Err(m) => Err(m),
                Ok(min_out) => if amount_in <= 0 || min_out <= 0 {
                    Err(
                        "Amount amount_in and min_out must be greater than zero, but got "@ + amount_text(amount_in, 6)
                            + " and "@ + amount_text(min_out, 6) + "."@,
                    )
                } else {
                    Ok((amount_in, f.2, min_out, f.3))
                },
            },
        },
    }
}

/// The amount to sell, limited to what the owner can spend on it, when they
/// hold any of its asset in the market: the shares they hold, and the
/// shares that a deposit of all their liquid points (`liquid`) would mint.
pub open spec fn clamped_amount_in(market: &Market, owner: Seq<char>, liquid: i64, amount_in: Amount) -> Amount {
    match position_of_owner(market.balances@, owner) {
        Some(p) => match position_of_asset(market.balances@[p].1.outcomes@, amount_in.1) {
            Some(k) => {
                let b = market.balances@[p].1.outcomes@[k];
                let available = b.0 + (if liquid > 0 { liquid as int } else { 0 });
                if available < amount_in.0 {
                    Amount(available as i64, amount_in.1)
                } else {
                    amount_in
                }
            },
            None => amount_in,
        },
        None => amount_in,
    }
}

/// The order to execute: as the form says, with the amount to sell limited
/// to what the user can spend on it.
pub open spec fn trade_order_result(ctx: &Context, market: &Market, pairs: Seq<(Seq<char>, Seq<char>)>) -> Result<(Amount, Amount), Seq<char>> {
    match trade_form(pairs) {
        Ok((ai, asset_in, mo, asset_out)) => Ok((
            clamped_amount_in(market, ctx.user_email@, ctx.user_points.0, Amount(ai as i64, AssetId(asset_in as i64))),
            Amount(mo as i64, AssetId(asset_out as i64)),
        )),
        Err(m) => Err(m),
    }
}

/// Read one asset id of a trade form.
fn read_asset(ctx: &Context, value: &str, reason: &str) -> (r: Result<i64, Error>)
    ensures
        match parse_int(value@) {
            Some(n) => r == Ok::<i64, Error>(n as i64),
            None => is_response(r, 400, reason@),
        },
{
    let cs = chars_of(value);
    assert(value@.subrange(0, value@.len() as int) =~= value@);
    match parse_int_range(&cs, 0, cs.len()) {
        Some(n) => Ok(n),
        None => Err(ctx.bad_request(reason)),
    }
}

/// Read the fields of a trade form.
fn read_trade_fields(ctx: &Context, pairs: &Vec<(String, String)>) -> (r: Result<
    (Option<String>, Option<String>, i64, i64),
    Error,
>)
    ensures
        match scan_trade_form(pairs_view(pairs@), (None, None, 0, 0)) {
            Ok(f) => r matches Ok(g) && (match g.0 {
                Some(t) => f.0 == Some(t@),
                None => f.0 is None,
            }) && (match g.1 {
                Some(t) => f.1 == Some(t@),
                None => f.1 is None,
            }) && f.2 == g.2 && f.3 == g.3,
            Err(m) => is_response(r, 400, m),
        },
{
    let mut amount_in: Option<String> = None;
    let mut min_out: Option<String> = None;
    let mut asset_in: i64 = 0;
    let mut asset_out: i64 = 0;
    assert(pairs_view(pairs@).subrange(0, pairs@.len() as int) =~= pairs_view(pairs@));
    let mut i: usize = 0;
    while i < pairs.len()
        invariant
            i <= pairs.len(),
            scan_trade_form(pairs_view(pairs@), (None, None, 0, 0)) == scan_trade_form(
                pairs_view(pairs@).subrange(i as int, pairs@.len() as int),
                (
                    match amount_in {
                        Some(t) => Some(t@),
                        None => None,
                    },
                    match min_out {
                        Some(t) => Some(t@),
                        None => None,
                    },
                    asset_in as int,
                    asset_out as int,
                ),
            ),
        decreases pairs.len() - i,
    {
        let ghost rest = pairs_view(pairs@).subrange(i as int, pairs@.len() as int);
        assert(rest[0] == (pairs@[i as int].0@, pairs@[i as int].1@));
        assert(rest.drop_first() =~= pairs_view(pairs@).subrange(i + 1, pairs@.len() as int));
        let key = pairs[i].0.as_str();
        let value = pairs[i].1.as_str();
        if str_eq(key, "amount_in") {
            amount_in = Some(value.to_owned());
        } else if str_eq(key, "min_out") {
            min_out = Some(value.to_owned());
        } else if str_eq(key, "asset_in") {
            asset_in = read_asset(ctx, value, "Invalid asset id for asset_in.")?;
        } else if str_eq(key, "asset_out") {
            asset_out = read_asset(ctx, value, "Invalid asset id for asset_out.")?;
        } else {
            return Err(ctx.bad_request("Unexpected form data."));
        }
        i = i + 1;
    }
    assert(pairs_view(pairs@).subrange(i as int, pairs@.len() as int).len() == 0);
    Ok((amount_in, min_out, asset_in, asset_out))
}

/// Read the amount of one side of an order.
fn read_side(ctx: &Context, text: &Option<String>, asset: i64, invalid: &str, missing: &str) -> (r: Result<Amount, Error>)
    requires
        side_fits(
            match text {
                Some(t) => Some(t@),
                None => None,
            },
            asset as int,
        ),
    ensures
        ({
            let tv = match text {
                Some(t) => Some(t@),
                None => None,
            };
            match order_side(tv, asset as int, invalid@, missing@) {
                Ok(n) => r == Ok::<Amount, Error>(Amount(n as i64, AssetId(asset))),
                Err(m) => is_response(r, 400, m),
            }
        }),
{
    match text {
        Some(t) if asset != 0 => match AssetId(asset).parse_amount(t.as_str()) {
            Some(n) => Ok(n),
            None => Err(ctx.bad_request(invalid)),
        },
        _ => Err(ctx.bad_request(missing)),
    }
}

/// Whether reading the amounts of one side stays within `i64`.
fn side_fits_exec(text: &Option<String>, asset: i64) -> (r: bool)
    ensures
        r == side_fits(
            match text {
                Some(t) => Some(t@),
                None => None,
            },
            asset as int,
        ),
{
    match text {
        Some(t) if asset != 0 => parse_amount_fits(t.as_str()),
        _ => true,
    }
}

/// The amount to sell, limited to what the user holds of its asset in the market.
fn clamp_amount_in(market: &Market, owner: &str, liquid: i64, amount_in: Amount) -> (r: Amount)
    ensures
        r == clamped_amount_in(market, owner@, liquid, amount_in),
{
    match find_owner(&market.balances, owner) {
        Some(p) => {
            let outcomes = &market.balances[p].1.outcomes;
            match find_asset(outcomes, amount_in.1) {
                Some(k) => {
                    let b = outcomes[k];
                    let spendable: i128 = if liquid > 0 {
                        liquid as i128
                    } else {
                        0
                    };
                    let available: i128 = (b.0 as i128) + spendable;
                    if available < amount_in.0 as i128 {
                        Amount(available as i64, amount_in.1)
                    } else {
                        amount_in
                    }
                },
                None => amount_in,
            }
        },
        None => amount_in,
    }
}

/// The order of the pairs of a trade form: the amount to sell and the least
/// amount to get in return.
///
/// The keys are `amount_in`, `min_out`, `asset_in` and `asset_out`; both
/// assets must be outcome shares (not points), both amounts more than zero.
/// Because the page may ask for slightly more than the user can spend, the
/// amount to sell is limited, when they hold any of its asset, to their
/// shares of it plus the shares that depositing their liquid points mints.
pub fn trade_order(ctx: &Context, market: &Market, pairs: &Vec<(String, String)>) -> (r: Result<(Amount, Amount), Error>)
    requires
        trade_form_fits(pairs_view(pairs@)),
    ensures
        match trade_order_result(ctx, market, pairs_view(pairs@)) {
            Ok(order) => r == Ok::<(Amount, Amount), Error>(order),
            Err(m) => is_response(r, 400, m),
        },
{
    let (amount_in_str, min_out_str, asset_in, asset_out) = read_trade_fields(ctx, pairs)?;
    let amount_in = read_side(
        ctx,
        &amount_in_str,
        asset_in,
        "Invalid amount_in amount or in asset id absent.",
        "Missing amount_in, asset id, or invalid asset id.",
    )?;
    let min_out = read_side(
        ctx,
        &min_out_str,
        asset_out,
        "Invalid min_out amount or in asset id absent.",
        "Missing min_out amount, asset id, or invalid asset id.",
    )?;
    if amount_in.0 <= 0 || min_out.0 <= 0 {
        let mut msg = String::new();
        msg.append("Amount amount_in and min_out must be greater than zero, but got ");
        msg.append(amount_in.to_string().as_str());
        msg.append(" and ");
        msg.append(min_out.to_string().as_str());
        msg.append(".");
        assert(msg@ =~= "Amount amount_in and min_out must be greater than zero, but got "@ + amount_text(amount_in.0 as int, 6)
            + " and "@ + amount_text(min_out.0 as int, 6) + "."@);
        return Err(Error::Response(400, msg));
    }
    let clamped = clamp_amount_in(market, ctx.user_email.as_str(), ctx.user_points.0, amount_in);
    Ok((clamped, min_out))
}

/// Whether reading the amounts of the pairs of a trade form stays within `i64`.
fn trade_form_fits_exec(ctx: &Context, pairs: &Vec<(String, String)>) -> (r: bool)
    ensures
        r == trade_form_fits(pairs_view(pairs@)),
{
    match read_trade_fields(ctx, pairs) {
        Err(_) => true,
        Ok((amount_in_str, min_out_str, asset_in, asset_out)) => {
            if !side_fits_exec(&amount_in_str, asset_in) {
                return false;
            }
            let read_in = read_side(
                ctx,
                &amount_in_str,
                asset_in,
                "Invalid amount_in amount or in asset id absent.",
                "Missing amount_in, asset id, or invalid asset id.",
            );
            match read_in {
                Ok(_) => side_fits_exec(&min_out_str, asset_out),
                Err(_) => true,
            }
        },
    }
}

/// The order of a trade form body; see `trade_order`. An amount too large
/// for `i64` is refused as "Amount is out of range.".
pub fn parse_trade_order(ctx: &Context, market: &Market, body: &str) -> (r: Result<(Amount, Amount), Error>)
    ensures
        trade_form_fits(form_pairs(body@)) ==> match trade_order_result(ctx, market, form_pairs(body@)) {
            Ok(order) => r == Ok::<(Amount, Amount), Error>(order),
            Err(m) => is_response(r, 400, m),
        },
        !trade_form_fits(form_pairs(body@)) ==> is_response(r, 400, "Amount is out of range."@),
{
    let pairs = parse_form_pairs(body);
    if !trade_form_fits_exec(ctx, &pairs) {
        return Err(ctx.bad_request("Amount is out of range."));
    }
    trade_order(ctx, market, &pairs)
}

// ---------------------------------------------------------------------------
// Handlers that change the ledger.

/// The id of the market with the given slug, if there is one.
pub open spec fn market_with_slug(tx: &Ledger, slug: Seq<char>) -> Option<int> {
    if exists|i: int| 0 <= i < tx.markets.len() && (#[trigger] tx.markets@[i]).slug@ == slug {
        Some((choose|i: int| 0 <= i < tx.markets.len() && (#[trigger] tx.markets@[i]).slug@ == slug) + 1)
    } else {
        None
    }
}

proof fn lemma_market_with_slug(tx: &Ledger, slug: Seq<char>, m: int)
    requires
        tx.wf(),
        1 <= m <= tx.markets.len(),
        tx.markets@[m - 1].slug@ == slug,
    ensures
        market_with_slug(tx, slug) == Some(m),
{
    let i = choose|i: int| 0 <= i < tx.markets.len() && (#[trigger] tx.markets@[i]).slug@ == slug;
    assert(tx.markets@[m - 1].slug@ == slug);
    if i != m - 1 {
        assert(tx.markets@[i].slug@ != tx.markets@[m - 1].slug@);
    }
}

/// The market with the given slug, or the "No such market exists." page.
pub fn find_market(tx: &Ledger, ctx: &Context, market_slug: &str) -> (r: Result<Market, Error>)
    requires
        tx.wf(),
    ensures
        match market_with_slug(tx, market_slug@) {
            Some(m) => r matches Ok(market) && market.snapshot_of(tx) && market.id.0 == m && market.slug@ == market_slug@,
            None => is_response(r, 404, "No such market exists."@),
        },
{
    match get_market_by_slug(tx, market_slug) {
        Ok(Some(market)) => {
            proof {
                lemma_market_with_slug(tx, market_slug@, market.id.0 as int);
            }
            Ok(market)
        },
        _ => Err(ctx.not_found("No such market exists.")),
    }
}

/// Deposit points of the user into a market: the body of the request is a
/// form with the amount (see `parse_form_amount`). Answers with the location
/// of the market's page.
///
/// The market must exist (404 otherwise) and the form must be valid (400
/// otherwise); then the deposit happens as `create_deposit` says, or the
/// ledger refuses it.
pub fn handle_deposit(tx: &mut Ledger, ctx: &Context, market_slug: &str, body: &str) -> (r: Result<String, Error>)
    requires
        old(tx).wf(),
    ensures
        final(tx).wf(),
        market_with_slug(old(tx), market_slug@) is None ==> is_response(r, 404, "No such market exists."@) && *final(tx) == *old(tx),
        market_with_slug(old(tx), market_slug@) matches Some(m) ==> {
            &&& !amount_form_fits(form_pairs(body@)) ==> is_response(r, 400, "Amount is out of range."@) && *final(tx) == *old(tx)
            &&& amount_form_fits(form_pairs(body@)) ==> match form_amount(form_pairs(body@)) {
                Err(msg) => is_response(r, 400, msg) && *final(tx) == *old(tx),
                Ok(v) => match r {
                    Ok(location) => {
                        &&& location@ == ctx.prefix@ + "/market/"@ + market_slug@
                        &&& final(tx).events@.drop_last() == old(tx).events@
                        &&& final(tx).events@.last().owner@ == ctx.user_email@
                        &&& final(tx).events@.last().description@ == "Deposit"@
                        &&& forall|km: int, ka: int, ko: Seq<char>| #[trigger] final(tx).balance_of(km, ka, ko)
                            == old(tx).balance_of(km, ka, ko) + crate::model::deposit_delta(
                            m,
                            old(tx).outcome_ids(m),
                            v,
                            ctx.user_email@,
                            km,
                            ka,
                            ko,
                        )
                    },
                    Err(e) => e is Database,
                },
            }
            // Given room for the event and the accounts, the ledger takes the
            // deposit exactly when the balances stay within their bounds.
            &&& amount_form_fits(form_pairs(body@)) && form_amount(form_pairs(body@)) is Ok && old(tx).events.len()
                < i64::MAX && old(tx).accounts.len() + 2 + 2 * old(tx).outcome_ids(m).len() <= i64::MAX ==> (r is Ok
                <==> crate::model::deposit_allowed(
                old(tx),
                m,
                old(tx).outcome_ids(m),
                form_amount(form_pairs(body@))->Ok_0,
                ctx.user_email@,
            ))
        },
{
    let market = match find_market(tx, ctx, market_slug) {
        Ok(market) => market,
        Err(e) => return Err(e),
    };
    let amount = match parse_form_amount(ctx, body) {
        Ok(amount) => amount,
        Err(e) => return Err(e),
    };
    proof {
        assert(market.outcome_ids() == old(tx).outcome_ids(market.id.0 as int));
        reveal_strlit("");
    }
    match create_deposit(tx, &market, amount, ctx.user_email.as_str()) {
        Ok(()) => {
            let location = ctx.market_url(&market, "");
            assert(location@ =~= ctx.prefix@ + "/market/"@ + market_slug@);
            Ok(location)
        },
        Err(e) => Err(Error::Database(e)),
    }
}

/// Whether `create_trade` can record a trade of `owner` in the market:
/// both assets may be held in the market, the owner is not the system, and
/// both amounts are positive (transfers of nothing are refused).
pub open spec fn trade_recordable_spec(tx: &Ledger, market: &Market, amount_in: Amount, amount_out: Amount, owner: Seq<char>) -> bool {
    &&& 1 <= market.id.0 <= tx.markets.len()
    &&& tx.schema_ok(market.id.0 as int, amount_in.1.0 as int)
    &&& tx.schema_ok(market.id.0 as int, amount_out.1.0 as int)
    &&& owner != system_owner()
    &&& amount_in.0 > 0
    &&& amount_out.0 > 0
}

/// Whether `create_trade` can record the trade; see `trade_recordable_spec`.
pub fn trade_recordable(tx: &Ledger, market: &Market, amount_in: Amount, amount_out: Amount, owner: &str) -> (r: bool)
    ensures
        r == trade_recordable_spec(tx, market, amount_in, amount_out, owner@),
{
    let system = crate::ledger::system_owner_string();
    1 <= market.id.0 && market.id.0 as u64 <= tx.markets.len() as u64
        && tx.is_schema_ok(market.id.0, amount_in.1.0)
        && tx.is_schema_ok(market.id.0, amount_out.1.0)
        && !str_eq(owner, system.as_str())
        && amount_in.0 > 0
        && amount_out.0 > 0
}

/// Whether no balance holds a negative amount of shares of `outcome` (an
/// owner without any is paid nothing).
pub open spec fn winning_shares_held(market: &Market, outcome: OutcomeId) -> bool {
    forall|i: int, k: int|
        #![trigger market.balances@[i], market.outcome_ids()[k]]
        0 <= i < market.balances.len() && 0 <= k < market.outcomes.len() && market.outcome_ids()[k] == outcome.0
            ==> k < market.balances@[i].1.outcomes.len() && market.balances@[i].1.outcomes@[k].0 >= 0
}

/// Whether the market can be resolved to `outcome`: the outcome is one of
/// the market's, and no balance holds a negative amount of points or of
/// shares of the outcome. Owners with nothing to collect or to be paid are
/// skipped.
pub open spec fn resolution_payable_spec(market: &Market, outcome: OutcomeId) -> bool {
    &&& outcome.1 == market.id
    &&& market.outcome_ids().contains(outcome.0 as int)
    &&& forall|i: int| 0 <= i < market.balances.len() && (#[trigger] market.balances@[i]).0@ != system_owner()
        ==> market.balances@[i].1.points.0 >= 0
    &&& winning_shares_held(market, outcome)
}

/// Whether the market can be resolved to `outcome`; see
/// `resolution_payable_spec`.
pub fn resolution_payable(market: &Market, outcome: OutcomeId) -> (r: bool)
    ensures
        r == resolution_payable_spec(market, outcome),
{
    if outcome.1.0 != market.id.0 {
        return false;
    }
    let mut found = false;
    let mut k: usize = 0;
    while k < market.outcomes.len()
        invariant
            k <= market.outcomes.len(),
            outcome.1 == market.id,
            found == exists|q: int| 0 <= q < k && market.outcome_ids()[q] == outcome.0,
            forall|i: int, q: int|
                #![trigger market.balances@[i], market.outcome_ids()[q]]
                0 <= i < market.balances.len() && 0 <= q < k && market.outcome_ids()[q] == outcome.0
                    ==> q < market.balances@[i].1.outcomes.len() && market.balances@[i].1.outcomes@[q].0 >= 0,
        decreases market.outcomes.len() - k,
    {
        if market.outcomes[k].id.0 == outcome.0 {
            found = true;
            let mut i: usize = 0;
            while i < market.balances.len()
                invariant
                    i <= market.balances.len(),
                    k < market.outcomes.len(),
                    market.outcome_ids()[k as int] == outcome.0,
                    forall|j: int| 0 <= j < i ==> k < (#[trigger] market.balances@[j]).1.outcomes.len()
                        && market.balances@[j].1.outcomes@[k as int].0 >= 0,
                decreases market.balances.len() - i,
            {
                let b = &market.balances[i].1;
                if k >= b.outcomes.len() || b.outcomes[k].0 < 0 {
                    return false;
                }
                i = i + 1;
            }
        }
        k = k + 1;
    }
    if !found {
        assert(!market.outcome_ids().contains(outcome.0 as int));
        return false;
    }
    let system = crate::ledger::system_owner_string();
    let mut i: usize = 0;
    while i < market.balances.len()
        invariant
            i <= market.balances.len(),
            system@ == system_owner(),
            forall|j: int| 0 <= j < i && (#[trigger] market.balances@[j]).0@ != system_owner()
                ==> market.balances@[j].1.points.0 >= 0,
        decreases market.balances.len() - i,
    {
        if !str_eq(market.balances[i].0.as_str(), system.as_str()) && market.balances[i].1.points.0 < 0 {
            return false;
        }
        i = i + 1;
    }
    true
}

/// What a request to resolve a market names: the market, which must exist
/// (404), and one of its outcomes by id; only the administrator may resolve
/// (403), and the id must be a number (400) of one of the market's
/// outcomes (400).
pub fn resolve_request(tx: &Ledger, ctx: &Context, market_slug: &str, outcome_str: &str) -> (r: Result<(Market, OutcomeId), Error>)
    requires
        tx.wf(),
    ensures
        market_with_slug(tx, market_slug@) is None ==> is_response(r, 404, "No such market exists."@),
        market_with_slug(tx, market_slug@) matches Some(m) ==> {
            &&& !ctx.is_admin ==> is_response(r, 403, "Only admins are allowed to resolve markets."@)
            &&& ctx.is_admin && parse_int(outcome_str@) is None ==> is_response(r, 400, "Invalid outcome id."@)
            &&& ctx.is_admin ==> (parse_int(outcome_str@) matches Some(n) ==> {
                if tx.outcome_ids(m).contains(n) {
                    r matches Ok((market, outcome)) && market.snapshot_of(tx) && market.id.0 == m && outcome == OutcomeId(
                        n as i64,
                        market.id,
                    )
                } else {
                    is_response(r, 400, "That outcome does not exist in this market."@)
                }
            })
        },
{
    let market = match find_market(tx, ctx, market_slug) {
        Ok(market) => market,
        Err(e) => return Err(e),
    };
    if !ctx.is_admin {
        return Err(ctx.forbidden("Only admins are allowed to resolve markets."));
    }
    let cs = chars_of(outcome_str);
    assert(outcome_str@.subrange(0, outcome_str@.len() as int) =~= outcome_str@);
    let n = match parse_int_range(&cs, 0, cs.len()) {
        Some(n) => n,
        None => return Err(ctx.bad_request("Invalid outcome id.")),
    };
    match find_outcome(&market, n) {
        Some(outcome) => Ok((market, outcome)),
        None => Err(ctx.bad_request("That outcome does not exist in this market.")),
    }
}

/// The outcome of the market with the given id.
fn find_outcome(market: &Market, n: i64) -> (r: Option<OutcomeId>)
    requires
        forall|k: int| 0 <= k < market.outcomes.len() ==> (#[trigger] market.outcomes@[k]).id.1 == market.id,
    ensures
        match r {
            Some(outcome) => market.outcome_ids().contains(n as int) && outcome == OutcomeId(n, market.id),
            None => !market.outcome_ids().contains(n as int),
        },
{
    let mut k: usize = 0;
    while k < market.outcomes.len()
        invariant
            k <= market.outcomes.len(),
            forall|k: int| 0 <= k < market.outcomes.len() ==> (#[trigger] market.outcomes@[k]).id.1 == market.id,
            forall|q: int| 0 <= q < k ==> market.outcome_ids()[q] != n,
        decreases market.outcomes.len() - k,
    {
        if market.outcomes[k].id.0 == n {
            let outcome = market.outcomes[k].id;
            assert(market.outcome_ids()[k as int] == n);
            return Some(outcome);
        }
        k = k + 1;
    }
    None
}

/// The newest event to show on the activity page: none (show the latest), or
/// a number (400 "Invalid event id for activity overview." otherwise).
pub fn activity_cursor(ctx: &Context, max_event_id: Option<&str>) -> (r: Result<Option<i64>, Error>)
    ensures
        match max_event_id {
            None => r == Ok::<Option<i64>, Error>(None),
            Some(s) => match parse_int(s@) {
                Some(n) => r == Ok::<Option<i64>, Error>(Some(n as i64)),
                None => is_response(r, 400, "Invalid event id for activity overview."@),
            },
        },
{
    match max_event_id {
        None => Ok(None),
        Some(s) => {
            let cs = chars_of(s);
            assert(s@.subrange(0, s@.len() as int) =~= s@);
            match parse_int_range(&cs, 0, cs.len()) {
                Some(n) => Ok(Some(n)),
                None => Err(ctx.bad_request("Invalid event id for activity overview.")),
            }
        },
    }
}

// ---------------------------------------------------------------------------
// Which handler serves a path.

/// The pages served to GET requests.
#[derive(Clone, Debug)]
pub enum Page {
    Index,
    Assets,
    /// The activity overview, from the newest event or from the given event id.
    Activity(Option<String>),
    Bonus,
    Help,
    Icon,
    Leaderboard,
    Ledger,
    /// The page of the market with the given slug.
    Market(String),
    NotFound,
}

/// The actions of POST requests.
#[derive(Clone, Debug)]
pub enum Action {
    /// A trade in the market with the given slug.
    Trade(String),
    /// Resolving the market with the given slug to the outcome with the given id.
    Resolve(String, String),
    BonusCreate,
    NotFound,
}

/// The page that a path, split into segments, names.
pub open spec fn page_for(p: Seq<Seq<char>>, r: Page) -> bool {
    if p.len() == 0 || p == seq![""@] {
        r is Index
    } else if p == seq!["assets"@] {
        r is Assets
    } else if p == seq!["activity"@] {
        r == Page::Activity(None)
    } else if p.len() == 2 && p[0] == "activity"@ {
        r matches Page::Activity(Some(id)) && id@ == p[1]
    } else if p == seq!["bonus"@] {
        r is Bonus
    } else if p == seq!["help"@] {
        r is Help
    } else if p == seq!["icon.svg"@] {
        r is Icon
    } else if p == seq!["leaderboard"@] {
        r is Leaderboard
    } else if p == seq!["ledger"@] {
        r is Ledger
    } else if p.len() == 2 && p[0] == "market"@ {
        r matches Page::Market(slug) && slug@ == p[1]
    } else {
        r is NotFound
    }
}

/// The action that a path, split into segments, names.
pub open spec fn action_for(p: Seq<Seq<char>>, r: Action) -> bool {
    if p.len() == 3 && p[0] == "market"@ && p[2] == "trade"@ {
        r matches Action::Trade(slug) && slug@ == p[1]
    } else if p.len() == 4 && p[0] == "market"@ && p[2] == "resolve"@ {
        r matches Action::Resolve(slug, outcome) && slug@ == p[1] && outcome@ == p[3]
    } else if p == seq!["bonus"@, "create"@] {
        r is BonusCreate
    } else {
        r is NotFound
    }
}

/// Whether the path consists of the single segment `name`.
fn is_single(path: &Vec<String>, name: &str) -> (r: bool)
    ensures
        r == (strings_view(path@) == seq![name@]),
{
    if path.len() != 1 {
        assert(strings_view(path@).len() != 1);
        return false;
    }
    let r = str_eq(path[0].as_str(), name);
    proof {
        let p = strings_view(path@);
        assert(p.len() == 1 && p[0] == path@[0]@);
        if r {
            assert(p =~= seq![name@]);
        } else {
            assert(seq![name@][0] == name@);
        }
    }
    r
}

/// The page of a GET request for the path.
pub fn route_get(path: &Vec<String>) -> (r: Page)
    ensures
        page_for(strings_view(path@), r),
{
    let ghost p = strings_view(path@);
    if path.len() == 0 || is_single(path, "") {
        return Page::Index;
    }
    if is_single(path, "assets") {
        return Page::Assets;
    }
    if is_single(path, "activity") {
        return Page::Activity(None);
    }
    assert(path.len() == 2 ==> p[0] == path@[0]@ && p[1] == path@[1]@);
    if path.len() == 2 && str_eq(path[0].as_str(), "activity") {
        return Page::Activity(Some(path[1].clone()));
    }
    if is_single(path, "bonus") {
        return Page::Bonus;
    }
    if is_single(path, "help") {
        return Page::Help;
    }
    if is_single(path, "icon.svg") {
        return Page::Icon;
    }
    if is_single(path, "leaderboard") {
        return Page::Leaderboard;
    }
    if is_single(path, "ledger") {
        return Page::Ledger;
    }
    if path.len() == 2 && str_eq(path[0].as_str(), "market") {
        return Page::Market(path[1].clone());
    }
    Page::NotFound
}

/// The action of a POST request for the path.
pub fn route_post(path: &Vec<String>) -> (r: Action)
    ensures
        action_for(strings_view(path@), r),
{
    let ghost p = strings_view(path@);
    assert(path.len() >= 2 ==> p[0] == path@[0]@ && p[1] == path@[1]@);
    assert(path.len() >= 3 ==> p[2] == path@[2]@);
    assert(path.len() >= 4 ==> p[3] == path@[3]@);
    if path.len() == 3 && str_eq(path[0].as_str(), "market") && str_eq(path[2].as_str(), "trade") {
        return Action::Trade(path[1].clone());
    }
    if path.len() == 4 && str_eq(path[0].as_str(), "market") && str_eq(path[2].as_str(), "resolve") {
        return Action::Resolve(path[1].clone(), path[3].clone());
    }
    if path.len() == 2 && str_eq(path[0].as_str(), "bonus") && str_eq(path[1].as_str(), "create") {
        assert(p =~= seq!["bonus"@, "create"@]);
        return Action::BonusCreate;
    }
    proof {
        if p == seq!["bonus"@, "create"@] {
            assert(p[0] == "bonus"@ && p[1] == "create"@);
        }
    }
    Action::NotFound
}

} // verus!
