//! Exchange Rate Request.

use crate::text::{message, split_whitespace, texts, to_uppercase, uppercase, whitespace_fields};
use vstd::prelude::*;

verus! {

/// The items of an exchange rate request line, in their order on the line.
#[derive(Clone, Copy, Debug, PartialEq, Eq, Hash, Structural)]
pub enum Items {
    LineType,
    SourceExchange,
    SourceCurrency,
    DestinationExchange,
    DestinationCurrency,
}

impl Items {
    /// The label under which the item is named in messages.
    pub open spec fn label(&self) -> Seq<char> {
        match self {
            Items::LineType => "EXCHANGE_RATE_REQUEST"@,
            Items::SourceExchange => "source_exchange"@,
            Items::SourceCurrency => "source_currency"@,
            Items::DestinationExchange => "source_exchange"@,
            Items::DestinationCurrency => "destination_exchange"@,
        }
    }

    pub fn get_label(&self) -> (r: String)
        ensures
            r@ == self.label(),
    {
        match self {
            Items::LineType => String::from_str("EXCHANGE_RATE_REQUEST"),
            Items::SourceExchange => String::from_str("source_exchange"),
            Items::SourceCurrency => String::from_str("source_currency"),
            Items::DestinationExchange => String::from_str("source_exchange"),
            Items::DestinationCurrency => String::from_str("destination_exchange"),
        }
    }
}

/// `ExchangeRateRequest` structure: a query for the best rate from one asset
/// at one venue to another asset at another venue.
pub struct ExchangeRateRequest {
    source_exchange: String,
    source_currency: String,
    destination_exchange: String,
    destination_currency: String,
}

/// The four identifiers of a query, as texts.
pub ghost struct QueryView {
    pub source_exchange: Seq<char>,
    pub source_currency: Seq<char>,
    pub destination_exchange: Seq<char>,
    pub destination_currency: Seq<char>,
}

impl QueryView {
    /// The key by which queries are told apart: all four identifiers.
    pub open spec fn key(&self) -> (Seq<char>, Seq<char>, Seq<char>, Seq<char>) {
        (
            self.source_exchange,
            self.source_currency,
            self.destination_exchange,
            self.destination_currency,
        )
    }
}

impl View for ExchangeRateRequest {
    type V = QueryView;

    closed spec fn view(&self) -> QueryView {
        QueryView {
            source_exchange: self.source_exchange@,
            source_currency: self.source_currency@,
            destination_exchange: self.destination_exchange@,
            destination_currency: self.destination_currency@,
        }
    }
}

/// The items of a line, in their order on the line.
pub open spec fn line_items() -> Seq<Items> {
    seq![
        Items::LineType,
        Items::SourceExchange,
        Items::SourceCurrency,
        Items::DestinationExchange,
        Items::DestinationCurrency,
    ]
}

/// The message for a line item that the line does not have.
pub open spec fn missing_message(label: Seq<char>) -> Seq<char> {
    "The line item <"@ + label + "> is missing!"@
}

/// The messages for a line with only `found` parts: one for each item
/// after those, in their order.
pub open spec fn missing_messages(found: nat) -> Seq<Seq<char>> {
    Seq::new(
        (line_items().len() - found) as nat,
        |i: int| missing_message(line_items()[found + i].label()),
    )
}

/// The message for a line that does not start with the type of a request
/// line.
pub open spec fn wrong_type_message() -> Seq<char> {
    "The line item type identifier at the beginning of the line "@ + "EXCHANGE_RATE_REQUEST"@
        + " is wrong!"@
}

/// What a line says: a query, with its identifiers in upper case; or the
/// messages that say what is wrong with it. Parts after the fifth are passed
/// over.
pub open spec fn parsed_line(line: Seq<char>) -> Result<QueryView, Seq<Seq<char>>> {
    let fields = whitespace_fields(line);
    if fields.len() < line_items().len() {
        Err(missing_messages(fields.len()))
    } else if uppercase(fields[0]) != "EXCHANGE_RATE_REQUEST"@ {
        Err(seq![wrong_type_message()])
    } else {
        Ok(
            QueryView {
                source_exchange: uppercase(fields[1]),
                source_currency: uppercase(fields[2]),
                destination_exchange: uppercase(fields[3]),
                destination_currency: uppercase(fields[4]),
            },
        )
    }
}

impl ExchangeRateRequest {
    /// The type of a line that can be parsed into the `ExchangeRateRequest` structure.
    pub const LINE_TYPE: &'static str = "EXCHANGE_RATE_REQUEST";

    /// Parse input line and form a new `ExchangeRateRequest` struct from it.
    ///
    /// # `line` format
    ///
    /// EXCHANGE_RATE_REQUEST <source_exchange> <source_currency> <destination_exchange> <destination_currency>
    ///
    /// ## Example
    ///
    /// EXCHANGE_RATE_REQUEST KRAKEN BTC GDAX ETH
    pub fn parse_line(line: &String) -> (r: Result<ExchangeRateRequest, Vec<String>>)
        ensures
            match parsed_line(line@) {
                Ok(query) => r matches Ok(request) && request@ == query,
                Err(messages) => r matches Err(errors) && texts(errors@) == messages,
            },
    {
        let fields = split_whitespace(line.as_str());
        let items = [
            Items::LineType,
            Items::SourceExchange,
            Items::SourceCurrency,
            Items::DestinationExchange,
            Items::DestinationCurrency,
        ];
        assert(items@ =~= line_items());
        let mut errors: Vec<String> = Vec::new();
        // Collect raw values.
        let mut i: usize = 0;
        while i < 5
            invariant
                i <= 5,
                items@ == line_items(),
                texts(fields@) == whitespace_fields(line@),
                fields@.len() >= 5 ==> errors@.len() == 0,
                fields@.len() < 5 && i <= fields@.len() ==> errors@.len() == 0,
                fields@.len() < 5 && i > fields@.len() ==> texts(errors@) == missing_messages(
                    fields@.len() as nat,
                ).take(i - fields@.len()),
            decreases 5 - i,
        {
            if i >= fields.len() {
                let label = items[i].get_label();
                let text = message("The line item <", &label, "> is missing!");
                let ghost before = texts(errors@);
                errors.push(text);
                proof {
                    let all = missing_messages(fields@.len() as nat);
                    let k = i - fields@.len();
                    assert(all[k] == text@);
                    assert(texts(errors@) =~= before.push(text@));
                    assert(all.take(k + 1) =~= all.take(k).push(all[k]));
                    if k == 0 {
                        assert(before =~= Seq::<Seq<char>>::empty());
                        assert(all.take(0) =~= Seq::<Seq<char>>::empty());
                    }
                }
            }
            i = i + 1;
        }
        // Continue only if none of the collected values is missing (no errors are present).
        if fields.len() < 5 {
            proof {
                let all = missing_messages(fields@.len() as nat);
                assert(all.take(5 - fields@.len()) =~= all);
                assert(texts(fields@).len() == fields@.len());
            }
            return Err(errors);
        }
        proof {
            assert(texts(fields@).len() == fields@.len());
            assert(texts(fields@)[0] == fields@[0]@);
            assert(texts(fields@)[1] == fields@[1]@);
            assert(texts(fields@)[2] == fields@[2]@);
            assert(texts(fields@)[3] == fields@[3]@);
            assert(texts(fields@)[4] == fields@[4]@);
        }
        // Validate line type.
        let line_type = to_uppercase(fields[0].as_str());
        if line_type != String::from_str("EXCHANGE_RATE_REQUEST") {
            let mut text = String::from_str(
                "The line item type identifier at the beginning of the line ",
            );
            text.append("EXCHANGE_RATE_REQUEST");
            text.append(" is wrong!");
            errors.push(text);
            proof {
                assert(texts(errors@) =~= seq![wrong_type_message()]);
            }
            return Err(errors);
        }
        // Parse values, also making it all uppercase to be more robust.
        let source_exchange = to_uppercase(fields[1].as_str());
        let source_currency = to_uppercase(fields[2].as_str());
        let destination_exchange = to_uppercase(fields[3].as_str());
        let destination_currency = to_uppercase(fields[4].as_str());
        Ok(Self::new(source_exchange, source_currency, destination_exchange, destination_currency))
    }

    /// Create a new instance of `ExchangeRateRequest` structure.
    pub fn new(
        source_exchange: String,
        source_currency: String,
        destination_exchange: String,
        destination_currency: String,
    ) -> (r: Self)
        ensures
            r@ == (QueryView {
                source_exchange: source_exchange@,
                source_currency: source_currency@,
                destination_exchange: destination_exchange@,
                destination_currency: destination_currency@,
            }),
    {
        Self { source_exchange, source_currency, destination_exchange, destination_currency }
    }

    /// Get Index identifying current instance by its primary keys.
    pub fn get_index(&self) -> (r: (String, String, String, String))
        ensures
            (r.0@, r.1@, r.2@, r.3@) == self@.key(),
    {
        (
            self.source_exchange.clone(),
            self.source_currency.clone(),
            self.destination_exchange.clone(),
            self.destination_currency.clone(),
        )
    }

    pub fn get_source_exchange(&self) -> (r: &String)
        ensures
            r@ == self@.source_exchange,
    {
        &self.source_exchange
    }

    pub fn get_source_currency(&self) -> (r: &String)
        ensures
            r@ == self@.source_currency,
    {
        &self.source_currency
    }

    pub fn get_destination_exchange(&self) -> (r: &String)
        ensures
            r@ == self@.destination_exchange,
    {
        &self.destination_exchange
    }

    pub fn get_destination_currency(&self) -> (r: &String)
        ensures
            r@ == self@.destination_currency,
    {
        &self.destination_currency
    }
}

} // verus!
