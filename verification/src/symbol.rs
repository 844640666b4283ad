//! Tickers, their exchange-qualified symbols, and the address that serves
//! the daily bars of a symbol.
use vstd::prelude::*;
use vstd::string::*;
use crate::text::{all_digits, append_natural, decimal_text, digit_value};

verus! {

/// The two-letter market code of a ticker: `sh` where the ticker starts with
/// the digit five, `sz` for every other ticker, the empty one included.
pub open spec fn market_prefix(code: Seq<char>) -> Seq<char> {
    if code.len() > 0 && code[0] == '5' {
        seq!['s', 'h']
    } else {
        seq!['s', 'z']
    }
}

/// The qualified symbol of a ticker: its market code, then the ticker itself.
pub open spec fn qualified_symbol(code: Seq<char>) -> Seq<char> {
    market_prefix(code) + code
}

/// Prefixes a ticker with its market code.
pub fn to_sina_code(code: &str) -> (symbol: String)
    ensures
        symbol@ == qualified_symbol(code@),
{
    proof {
        reveal_strlit("sh");
        reveal_strlit("sz");
    }
    let prefix = if !code.is_empty() && code.get_char(0) == '5' {
        "sh"
    } else {
        "sz"
    };
    assert(prefix@ =~= market_prefix(code@));
    let mut symbol = String::from_str(prefix);
    symbol.append(code);
    symbol
}

/// Whether `code` is a ticker: six decimal digits.
pub open spec fn is_ticker(code: Seq<char>) -> bool {
    code.len() == 6 && all_digits(code)
}

/// The funds that a run looks at, in the order in which it does so.
pub open spec fn etf_code_texts() -> Seq<Seq<char>> {
    seq![
        "513520"@,
        "513350"@,
        "513870"@,
        "512800"@,
        "515000"@,
        "513030"@,
        "516810"@,
        "518880"@,
        "513500"@,
        "512660"@,
        "510050"@,
        "512000"@,
        "513730"@,
        "512670"@,
        "512400"@,
        "513080"@,
        "517090"@,
        "513800"@,
        "515750"@,
        "520580"@,
        "501090"@,
        "515710"@,
        "516970"@,
        "520830"@,
        "515220"@,
        "513110"@,
        "561360"@,
    ]
}

/// What a list of codes says, code by code.
pub open spec fn code_views(codes: Seq<&'static str>) -> Seq<Seq<char>> {
    codes.map_values(|code: &'static str| code@)
}

/// Every listed code is a ticker and starts with the digit five, so that
/// its market code is `sh`.
pub proof fn lemma_listed_codes(i: int)
    requires
        0 <= i < etf_code_texts().len(),
    ensures
        is_ticker(etf_code_texts()[i]),
        market_prefix(etf_code_texts()[i]) == seq!['s', 'h'],
{
    reveal_strlit("513520");
    reveal_strlit("513350");
    reveal_strlit("513870");
    reveal_strlit("512800");
    reveal_strlit("515000");
    reveal_strlit("513030");
    reveal_strlit("516810");
    reveal_strlit("518880");
    reveal_strlit("513500");
    reveal_strlit("512660");
    reveal_strlit("510050");
    reveal_strlit("512000");
    reveal_strlit("513730");
    reveal_strlit("512670");
    reveal_strlit("512400");
    reveal_strlit("513080");
    reveal_strlit("517090");
    reveal_strlit("513800");
    reveal_strlit("515750");
    reveal_strlit("520580");
    reveal_strlit("501090");
    reveal_strlit("515710");
    reveal_strlit("516970");
    reveal_strlit("520830");
    reveal_strlit("515220");
    reveal_strlit("513110");
    reveal_strlit("561360");
    let code = etf_code_texts()[i];
    assert(code.len() == 6);
    assert(code[0] == '5');
    assert forall|j: int| 0 <= j < code.len() implies (#[trigger] digit_value(code[j])) is Some by {}
}

/// The funds that a run looks at, in the order in which it does so.
pub fn etf_codes() -> (codes: Vec<&'static str>)
    ensures
        code_views(codes@) == etf_code_texts(),
{
    let mut codes: Vec<&'static str> = Vec::new();
    codes.push("513520");
    codes.push("513350");
    codes.push("513870");
    codes.push("512800");
    codes.push("515000");
    codes.push("513030");
    codes.push("516810");
    codes.push("518880");
    codes.push("513500");
    codes.push("512660");
    codes.push("510050");
    codes.push("512000");
    codes.push("513730");
    codes.push("512670");
    codes.push("512400");
    codes.push("513080");
    codes.push("517090");
    codes.push("513800");
    codes.push("515750");
    codes.push("520580");
    codes.push("501090");
    codes.push("515710");
    codes.push("516970");
    codes.push("520830");
    codes.push("515220");
    codes.push("513110");
    codes.push("561360");
    assert(code_views(codes@) =~= etf_code_texts());
    codes
}

/// The address of the daily-bar service up to the symbol.
pub open spec fn endpoint_text() -> Seq<char> {
    "https://money.finance.sina.com.cn/quotes_service/api/json_v2.php/CN_MarketData.getKLineData?symbol="@
}

/// The address that serves the last `day` daily bars of the ticker `code`:
/// the endpoint with the qualified symbol, bars of 240 minutes, no moving
/// average, and `day` as the number of bars.
pub open spec fn kline_url_text(code: Seq<char>, day: nat) -> Seq<char> {
    endpoint_text() + qualified_symbol(code) + "&scale=240&ma=no&datalen="@ + decimal_text(day)
}

/// Builds the address that serves the last `day` daily bars of a ticker.
pub fn kline_url(code: &str, day: usize) -> (url: String)
    ensures
        url@ == kline_url_text(code@, day as nat),
{
    let symbol = to_sina_code(code);
    let mut url = String::from_str(
        "https://money.finance.sina.com.cn/quotes_service/api/json_v2.php/CN_MarketData.getKLineData?symbol=",
    );
    url.append(symbol.as_str());
    url.append("&scale=240&ma=no&datalen=");
    append_natural(&mut url, day as u128);
    url
}

} // verus!
