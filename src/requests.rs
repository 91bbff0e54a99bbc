//! Requests accepted by the market-data gateway, with their validation.
use vstd::prelude::*;
use vstd::string::{StrSliceExecFns, StringExecFns};

verus! {

/// Decimal digit of `d`.
pub open spec fn digit_char(d: nat) -> char {
    "0123456789"@[d as int]
}

/// Decimal representation of a natural number, without leading zeros.
pub open spec fn decimal(n: nat) -> Seq<char>
    decreases n,
{
    if n < 10 {
        seq![digit_char(n)]
    } else {
        decimal(n / 10) + seq![digit_char(n % 10)]
    }
}

/// Decimal representation of `n`.
pub fn decimal_string(n: u64) -> (s: String)
    ensures
        s@ == decimal(n as nat),
    decreases n,
{
    let digits: &str = "0123456789";
    proof {
        reveal_strlit("0123456789");
    }
    let d: usize = (n % 10) as usize;
    let piece = digits.substring_char(d, d + 1);
    proof {
        assert(piece@ =~= seq![digit_char(d as nat)]);
    }
    if n < 10 {
        String::from_str(piece)
    } else {
        let mut s = decimal_string(n / 10);
        s.append(piece);
        s
    }
}

/// Resolution of candles for stock history.
#[derive(Clone, Copy, Debug, PartialEq, Eq, Structural)]
pub enum Resolution {
    OneMinute,
    FiveMinutes,
    FifteenMinutes,
    ThirtyMinutes,
    OneHour,
    OneDay,
    OneWeek,
    OneMonth,
}

/// Wire spelling of a resolution.
pub open spec fn resolution_code(r: Resolution) -> Seq<char> {
    match r {
        Resolution::OneMinute => "1"@,
        Resolution::FiveMinutes => "5"@,
        Resolution::FifteenMinutes => "15"@,
        Resolution::ThirtyMinutes => "30"@,
        Resolution::OneHour => "60"@,
        Resolution::OneDay => "1D"@,
        Resolution::OneWeek => "1W"@,
        Resolution::OneMonth => "1M"@,
    }
}

impl Resolution {
    /// Wire spelling of the resolution.
    pub fn as_str(&self) -> (s: &'static str)
        ensures
            s@ == resolution_code(*self),
    {
        match self {
            Resolution::OneMinute => "1",
            Resolution::FiveMinutes => "5",
            Resolution::FifteenMinutes => "15",
            Resolution::ThirtyMinutes => "30",
            Resolution::OneHour => "60",
            Resolution::OneDay => "1D",
            Resolution::OneWeek => "1W",
            Resolution::OneMonth => "1M",
        }
    }
}

/// Message for a time range that is empty or reversed.
pub open spec fn msg_order() -> Seq<char> {
    "'from' timestamp must be less than 'to' timestamp"@
}

/// Message for a negative timestamp.
pub open spec fn msg_negative() -> Seq<char> {
    "Timestamps must be positive"@
}

/// The first problem of a time range `from .. to`, if any: it must be
/// increasing and both ends non-negative.
pub open spec fn range_error(from: i64, to: i64) -> Option<Seq<char>> {
    if from >= to {
        Some(msg_order())
    } else if from < 0 || to < 0 {
        Some(msg_negative())
    } else {
        None
    }
}

/// Checks a time range `from .. to`.
fn check_range(from: i64, to: i64) -> (r: Result<(), String>)
    ensures
        match r {
            Ok(()) => range_error(from, to) is None,
            Err(e) => range_error(from, to) == Some(e@),
        },
{
    if from >= to {
        return Err(String::from_str("'from' timestamp must be less than 'to' timestamp"));
    }
    if from < 0 || to < 0 {
        return Err(String::from_str("Timestamps must be positive"));
    }
    Ok(())
}

/// Stock history request.
#[derive(Debug)]
pub struct StockHistoryRequest {
    pub symbol: String,
    pub resolution: Resolution,
    pub from: i64,
    pub to: i64,
    pub source: Option<String>,
}

/// The first problem of a stock history request, if any.
pub open spec fn stock_request_error(symbol: Seq<char>, from: i64, to: i64) -> Option<Seq<char>> {
    if symbol.len() == 0 {
        Some("Symbol cannot be empty"@)
    } else {
        range_error(from, to)
    }
}

impl StockHistoryRequest {
    /// A request with no preferred source.
    pub fn new(symbol: String, resolution: Resolution, from: i64, to: i64) -> (r: StockHistoryRequest)
        ensures
            r.symbol == symbol && r.resolution == resolution && r.from == from && r.to == to && r.source is None,
    {
        StockHistoryRequest { symbol, resolution, from, to, source: None }
    }

    /// The request with a preferred source.
    pub fn with_source(self, source: String) -> (r: StockHistoryRequest)
        ensures
            r == (StockHistoryRequest { source: Some(source), ..self }),
    {
        StockHistoryRequest { source: Some(source), ..self }
    }

    /// Rejects an empty symbol, then a bad time range.
    pub fn validate(&self) -> (r: Result<(), String>)
        ensures
            match r {
                Ok(()) => stock_request_error(self.symbol@, self.from, self.to) is None,
                Err(e) => stock_request_error(self.symbol@, self.from, self.to) == Some(e@),
            },
    {
        if self.symbol.as_str().is_empty() {
            return Err(String::from_str("Symbol cannot be empty"));
        }
        check_range(self.from, self.to)
    }
}

/// Gold price request.
#[derive(Debug)]
pub struct GoldPriceRequest {
    pub gold_price_id: String,
    pub from: i64,
    pub to: i64,
    pub source: Option<String>,
}

/// The first problem of a gold price request, if any.
pub open spec fn gold_request_error(id: Seq<char>, from: i64, to: i64) -> Option<Seq<char>> {
    if id.len() == 0 {
        Some("Gold price ID cannot be empty"@)
    } else {
        range_error(from, to)
    }
}

impl GoldPriceRequest {
    /// A request with no preferred source.
    pub fn new(gold_price_id: String, from: i64, to: i64) -> (r: GoldPriceRequest)
        ensures
            r.gold_price_id == gold_price_id && r.from == from && r.to == to && r.source is None,
    {
        GoldPriceRequest { gold_price_id, from, to, source: None }
    }

    /// The request with a preferred source.
    pub fn with_source(self, source: String) -> (r: GoldPriceRequest)
        ensures
            r == (GoldPriceRequest { source: Some(source), ..self }),
    {
        GoldPriceRequest { source: Some(source), ..self }
    }

    /// Rejects an empty product id, then a bad time range.
    pub fn validate(&self) -> (r: Result<(), String>)
        ensures
            match r {
                Ok(()) => gold_request_error(self.gold_price_id@, self.from, self.to) is None,
                Err(e) => gold_request_error(self.gold_price_id@, self.from, self.to) == Some(e@),
            },
    {
        if self.gold_price_id.as_str().is_empty() {
            return Err(String::from_str("Gold price ID cannot be empty"));
        }
        check_range(self.from, self.to)
    }
}

/// Longest range of an exchange rate request, in days.
pub const MAX_EXCHANGE_RATE_DAYS: i64 = 180;

/// Seconds in a day.
pub const SECONDS_PER_DAY: i64 = 86400;

/// Exchange rate request.
#[derive(Debug)]
pub struct ExchangeRateRequest {
    pub currency_code: String,
    pub from: i64,
    pub to: i64,
    pub source: Option<String>,
}

/// The first problem of an exchange rate request, if any: an empty
/// currency, a bad range, or a range of more than the allowed whole days.
pub open spec fn exchange_request_error(code: Seq<char>, from: i64, to: i64) -> Option<Seq<char>> {
    if code.len() == 0 {
        Some("Currency code cannot be empty"@)
    } else if range_error(from, to) is Some {
        range_error(from, to)
    } else if (to - from) / 86400 > 180 {
        Some(
            "Date range exceeds maximum limit of 180 days. Requested: "@ + decimal(((to - from) / 86400) as nat)
                + " days"@,
        )
    } else {
        None
    }
}

impl ExchangeRateRequest {
    /// A request with no preferred source.
    pub fn new(currency_code: String, from: i64, to: i64) -> (r: ExchangeRateRequest)
        ensures
            r.currency_code == currency_code && r.from == from && r.to == to && r.source is None,
    {
        ExchangeRateRequest { currency_code, from, to, source: None }
    }

    /// The request with a preferred source.
    pub fn with_source(self, source: String) -> (r: ExchangeRateRequest)
        ensures
            r == (ExchangeRateRequest { source: Some(source), ..self }),
    {
        ExchangeRateRequest { source: Some(source), ..self }
    }

    /// Rejects an empty currency, a bad time range, and a range longer than
    /// the allowed number of whole days.
    pub fn validate(&self) -> (r: Result<(), String>)
        ensures
            match r {
                Ok(()) => exchange_request_error(self.currency_code@, self.from, self.to) is None,
                Err(e) => exchange_request_error(self.currency_code@, self.from, self.to) == Some(e@),
            },
    {
        if self.currency_code.as_str().is_empty() {
            return Err(String::from_str("Currency code cannot be empty"));
        }
        match check_range(self.from, self.to) {
            Err(e) => {
                return Err(e);
            },
            Ok(()) => {},
        }
        let days: i64 = (self.to - self.from) / SECONDS_PER_DAY;
        if days > MAX_EXCHANGE_RATE_DAYS {
            let mut msg = String::from_str("Date range exceeds maximum limit of 180 days. Requested: ");
            let n = decimal_string(days as u64);
            msg.append(n.as_str());
            msg.append(" days");
            return Err(msg);
        }
        Ok(())
    }
}

/// Gold premium request.
#[derive(Debug)]
pub struct GoldPremiumRequest {
    pub from: i64,
    pub to: i64,
    pub gold_price_id: Option<String>,
    pub currency_code: Option<String>,
    pub gold_source: Option<String>,
    pub exchange_rate_source: Option<String>,
    pub stock_source: Option<String>,
}

/// The first problem of a gold premium request, if any: the range may be a
/// single instant, but not reversed, and both ends are non-negative.
pub open spec fn premium_request_error(from: i64, to: i64) -> Option<Seq<char>> {
    if from > to {
        Some("'from' timestamp must be less than or equal to 'to' timestamp"@)
    } else if from < 0 || to < 0 {
        Some(msg_negative())
    } else {
        None
    }
}

impl GoldPremiumRequest {
    /// A request for SJC gold (product "1") against USD, default sources.
    pub fn new(from: i64, to: i64) -> (r: GoldPremiumRequest)
        ensures
            r.from == from && r.to == to,
            r.gold_price_id is Some && r.gold_price_id->0@ == "1"@,
            r.currency_code is Some && r.currency_code->0@ == "USD"@,
            r.gold_source is None && r.exchange_rate_source is None && r.stock_source is None,
    {
        GoldPremiumRequest {
            from,
            to,
            gold_price_id: Some(String::from_str("1")),
            currency_code: Some(String::from_str("USD")),
            gold_source: None,
            exchange_rate_source: None,
            stock_source: None,
        }
    }

    /// The request with another gold product.
    pub fn with_gold_price_id(self, gold_price_id: String) -> (r: GoldPremiumRequest)
        ensures
            r == (GoldPremiumRequest { gold_price_id: Some(gold_price_id), ..self }),
    {
        GoldPremiumRequest { gold_price_id: Some(gold_price_id), ..self }
    }

    /// The request with another currency.
    pub fn with_currency_code(self, currency_code: String) -> (r: GoldPremiumRequest)
        ensures
            r == (GoldPremiumRequest { currency_code: Some(currency_code), ..self }),
    {
        GoldPremiumRequest { currency_code: Some(currency_code), ..self }
    }

    /// The request with a preferred gold price source.
    pub fn with_gold_source(self, source: String) -> (r: GoldPremiumRequest)
        ensures
            r == (GoldPremiumRequest { gold_source: Some(source), ..self }),
    {
        GoldPremiumRequest { gold_source: Some(source), ..self }
    }

    /// The request with a preferred exchange rate source.
    pub fn with_exchange_rate_source(self, source: String) -> (r: GoldPremiumRequest)
        ensures
            r == (GoldPremiumRequest { exchange_rate_source: Some(source), ..self }),
    {
        GoldPremiumRequest { exchange_rate_source: Some(source), ..self }
    }

    /// The request with a preferred stock (world price) source.
    pub fn with_stock_source(self, source: String) -> (r: GoldPremiumRequest)
        ensures
            r == (GoldPremiumRequest { stock_source: Some(source), ..self }),
    {
        GoldPremiumRequest { stock_source: Some(source), ..self }
    }

    /// Rejects a reversed range, then a negative timestamp.
    pub fn validate(&self) -> (r: Result<(), String>)
        ensures
            match r {
                Ok(()) => premium_request_error(self.from, self.to) is None,
                Err(e) => premium_request_error(self.from, self.to) == Some(e@),
            },
    {
        if self.from > self.to {
            return Err(String::from_str("'from' timestamp must be less than or equal to 'to' timestamp"));
        }
        if self.from < 0 || self.to < 0 {
            return Err(String::from_str("Timestamps must be positive"));
        }
        Ok(())
    }
}

/// Kind of market data.
#[derive(Clone, Copy, Debug, PartialEq, Eq, Structural)]
pub enum DataType {
    Stock,
    Gold,
}

impl DataType {
    /// Wire spelling of the data type.
    pub fn as_str(&self) -> (s: &'static str)
        ensures
            s@ == match *self {
                DataType::Stock => "stock"@,
                DataType::Gold => "gold"@,
            },
    {
        match self {
            DataType::Stock => "stock",
            DataType::Gold => "gold",
        }
    }
}

/// A request for either kind of market data.
#[derive(Debug)]
pub enum DataRequest {
    Stock(StockHistoryRequest),
    Gold(GoldPriceRequest),
}

impl DataRequest {
    /// Kind of data requested.
    pub fn data_type(&self) -> (t: DataType)
        ensures
            t == match *self {
                DataRequest::Stock(_) => DataType::Stock,
                DataRequest::Gold(_) => DataType::Gold,
            },
    {
        match self {
            DataRequest::Stock(_) => DataType::Stock,
            DataRequest::Gold(_) => DataType::Gold,
        }
    }

    /// Preferred source, if any.
    pub fn source(&self) -> (s: Option<&str>)
        ensures
            match *self {
                DataRequest::Stock(q) => match q.source {
                    Some(x) => s is Some && s->0@ == x@,
                    None => s is None,
                },
                DataRequest::Gold(q) => match q.source {
                    Some(x) => s is Some && s->0@ == x@,
                    None => s is None,
                },
            },
    {
        let src = match self {
            DataRequest::Stock(req) => &req.source,
            DataRequest::Gold(req) => &req.source,
        };
        match src {
            Some(x) => Some(x.as_str()),
            None => None,
        }
    }

    /// Sets the preferred source.
    pub fn set_source(&mut self, source: String)
        ensures
            match (*old(self), *final(self)) {
                (DataRequest::Stock(a), DataRequest::Stock(b)) => b == (StockHistoryRequest {
                    source: Some(source),
                    ..a
                }),
                (DataRequest::Gold(a), DataRequest::Gold(b)) => b == (GoldPriceRequest { source: Some(source), ..a }),
                _ => false,
            },
    {
        match self {
            DataRequest::Stock(req) => req.source = Some(source),
            DataRequest::Gold(req) => req.source = Some(source),
        }
    }

    /// Validates the inner request.
    pub fn validate(&self) -> (r: Result<(), String>)
        ensures
            match (*self, r) {
                (DataRequest::Stock(q), Ok(())) => stock_request_error(q.symbol@, q.from, q.to) is None,
                (DataRequest::Stock(q), Err(e)) => stock_request_error(q.symbol@, q.from, q.to) == Some(e@),
                (DataRequest::Gold(q), Ok(())) => gold_request_error(q.gold_price_id@, q.from, q.to) is None,
                (DataRequest::Gold(q), Err(e)) => gold_request_error(q.gold_price_id@, q.from, q.to) == Some(e@),
            },
    {
        match self {
            DataRequest::Stock(req) => req.validate(),
            DataRequest::Gold(req) => req.validate(),
        }
    }
}

} // verus!
