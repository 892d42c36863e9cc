//! Price Update.

use crate::text::{
    message, parse_rfc3339, rfc3339_instant, split_whitespace, texts, timestamp_of, to_uppercase,
    uppercase, whitespace_fields,
};
use vstd::prelude::*;

verus! {

/// The items of a price update line, in their order on the line.
#[derive(Clone, Copy, Debug, PartialEq, Eq, Hash, Structural)]
pub enum Items {
    Timestamp,
    Exchange,
    SourceCurrency,
    DestinationCurrency,
    ForwardFactor,
    BackwardFactor,
}

impl Items {
    /// The label under which the item is named in messages.
    pub open spec fn label(&self) -> Seq<char> {
        match self {
            Items::Timestamp => "timestamp"@,
            Items::Exchange => "exchange"@,
            Items::SourceCurrency => "source_currency"@,
            Items::DestinationCurrency => "destination_currency"@,
            Items::ForwardFactor => "forward_factor"@,
            Items::BackwardFactor => "backward_factor"@,
        }
    }

    pub fn get_label(&self) -> (r: String)
        ensures
            r@ == self.label(),
    {
        match self {
            Items::Timestamp => String::from_str("timestamp"),
            Items::Exchange => String::from_str("exchange"),
            Items::SourceCurrency => String::from_str("source_currency"),
            Items::DestinationCurrency => String::from_str("destination_currency"),
            Items::ForwardFactor => String::from_str("forward_factor"),
            Items::BackwardFactor => String::from_str("backward_factor"),
        }
    }
}

/// A point in time with the offset from UTC under which it was written.
#[derive(Clone, Copy, Debug, PartialEq, Eq, Structural)]
pub struct Timestamp {
    /// Whole seconds since 1970-01-01T00:00:00 UTC.
    pub seconds: i64,
    /// Nanoseconds since the last whole second.
    pub nanos: u32,
    /// Seconds that local time is ahead of UTC.
    pub offset: i32,
}

impl Timestamp {
    /// Whether this point in time is later than `other`. The offsets play
    /// no part.
    pub open spec fn later_than(&self, other: &Timestamp) -> bool {
        self.seconds > other.seconds || (self.seconds == other.seconds && self.nanos > other.nanos)
    }

    /// Whether this point in time is later than `other`.
    pub fn is_later_than(&self, other: &Timestamp) -> (r: bool)
        ensures
            r == self.later_than(other),
    {
        self.seconds > other.seconds || (self.seconds == other.seconds && self.nanos > other.nanos)
    }
}

/// One observation: what one unit of the source asset gives in the
/// destination asset at a venue, and the other way round, at a time.
///
/// `E` is the edge weight.
pub struct PriceUpdate<E> {
    timestamp: Timestamp,
    exchange: String,
    source_currency: String,
    destination_currency: String,
    forward_factor: E,
    backward_factor: E,
}

/// A price update with its identifiers as texts.
pub ghost struct QuoteView<E> {
    pub timestamp: Timestamp,
    pub exchange: Seq<char>,
    pub source_currency: Seq<char>,
    pub destination_currency: Seq<char>,
    pub forward_factor: E,
    pub backward_factor: E,
}

impl<E> QuoteView<E> {
    /// The key by which price updates are told apart: venue, source asset
    /// and destination asset.
    pub open spec fn key(&self) -> (Seq<char>, Seq<char>, Seq<char>) {
        (self.exchange, self.source_currency, self.destination_currency)
    }
}

impl<E> View for PriceUpdate<E> {
    type V = QuoteView<E>;

    closed spec fn view(&self) -> QuoteView<E> {
        QuoteView {
            timestamp: self.timestamp,
            exchange: self.exchange@,
            source_currency: self.source_currency@,
            destination_currency: self.destination_currency@,
            forward_factor: self.forward_factor,
            backward_factor: self.backward_factor,
        }
    }
}

/// The items of a line, in their order on the line.
pub open spec fn line_items() -> Seq<Items> {
    seq![
        Items::Timestamp,
        Items::Exchange,
        Items::SourceCurrency,
        Items::DestinationCurrency,
        Items::ForwardFactor,
        Items::BackwardFactor,
    ]
}

/// The message for a line item that the line does not have.
pub open spec fn missing_message(label: Seq<char>) -> Seq<char> {
    "The line item <"@ + label + "> is missing!"@
}

/// The message for a line item that cannot be read.
pub open spec fn wrong_format_message(label: Seq<char>) -> Seq<char> {
    "The line item <"@ + label + "> can not be parsed (wrong format)!"@
}

/// The messages for a line with only `found` parts: one for each item
/// after those, in their order.
pub open spec fn missing_messages(found: nat) -> Seq<Seq<char>> {
    Seq::new(
        (line_items().len() - found) as nat,
        |i: int| missing_message(line_items()[found + i].label()),
    )
}

/// The message for `item` where it could not be read, and nothing where it
/// could.
pub open spec fn unread(readable: bool, item: Items) -> Seq<Seq<char>> {
    if readable {
        Seq::empty()
    } else {
        seq![wrong_format_message(item.label())]
    }
}

/// `read` says what `parse_factor` returns: whatever a call returns is
/// what the function gives for the text of the string.
pub open spec fn reads<E, F: Fn(String) -> Option<E>>(
    parse_factor: F,
    read: spec_fn(Seq<char>) -> Option<E>,
) -> bool {
    forall|s: String, r: Option<E>| call_ensures(parse_factor, (s,), r) ==> r == read(s@)
}

/// What a line says, where `read` reads a factor: a price update, with its
/// identifiers in upper case; or the messages that say what is wrong with
/// it: the items that are missing, or else the timestamp and the factors
/// that cannot be read, in this order. Parts after the sixth are passed
/// over.
pub open spec fn parsed_line<E>(line: Seq<char>, read: spec_fn(Seq<char>) -> Option<E>) -> Result<
    QuoteView<E>,
    Seq<Seq<char>>,
> {
    let fields = whitespace_fields(line);
    if fields.len() < line_items().len() {
        Err(missing_messages(fields.len()))
    } else {
        let timestamp = timestamp_of(rfc3339_instant(fields[0]));
        let forward = read(fields[4]);
        let backward = read(fields[5]);
        if timestamp.is_some() && forward.is_some() && backward.is_some() {
            Ok(
                QuoteView {
                    timestamp: timestamp.unwrap(),
                    exchange: uppercase(fields[1]),
                    source_currency: uppercase(fields[2]),
                    destination_currency: uppercase(fields[3]),
                    forward_factor: forward.unwrap(),
                    backward_factor: backward.unwrap(),
                },
            )
        } else {
            Err(
                unread(timestamp.is_some(), Items::Timestamp) + unread(
                    forward.is_some(),
                    Items::ForwardFactor,
                ) + unread(backward.is_some(), Items::BackwardFactor),
            )
        }
    }
}

impl<E> PriceUpdate<E> {
    /// Parse input line and form a new `PriceUpdate` struct from it.
    /// `parse_factor` reads a factor from its text.
    ///
    /// # `line` format
    ///
    /// <timestamp> <exchange> <source_currency> <destination_currency> <forward_factor> <backward_factor>
    ///
    /// ## Example
    ///
    /// 2017-11-01T09:42:23+00:00 KRAKEN BTC USD 1000.0 0.0009
    pub fn parse_line<F: Fn(String) -> Option<E>>(line: &String, parse_factor: &F) -> (r: Result<
        PriceUpdate<E>,
        Vec<String>,
    >)
        requires
            forall|s: String| call_requires(*parse_factor, (s,)),
        ensures
            forall|read: spec_fn(Seq<char>) -> Option<E>| #[trigger]
                reads(*parse_factor, read) ==> match parsed_line(line@, read) {
                    Ok(quote) => r matches Ok(update) && update@ == quote,
                    Err(messages) => r matches Err(errors) && texts(errors@) == messages,
                },
    {
        let fields = split_whitespace(line.as_str());
        let items = [
            Items::Timestamp,
            Items::Exchange,
            Items::SourceCurrency,
            Items::DestinationCurrency,
            Items::ForwardFactor,
            Items::BackwardFactor,
        ];
        assert(items@ =~= line_items());
        let mut errors: Vec<String> = Vec::new();
        // Collect raw values.
        let mut i: usize = 0;
        while i < 6
            invariant
                i <= 6,
                items@ == line_items(),
                texts(fields@) == whitespace_fields(line@),
                fields@.len() >= 6 ==> errors@.len() == 0,
                fields@.len() < 6 && i <= fields@.len() ==> errors@.len() == 0,
                fields@.len() < 6 && i > fields@.len() ==> texts(errors@) == missing_messages(
                    fields@.len() as nat,
                ).take(i - fields@.len()),
            decreases 6 - i,
        {
            if i >= fields.len() {
                let label = items[i].get_label();
                let text = message("The line item <", &label, "> is missing!");
                let ghost before = texts(errors@);
                errors.push(text);
                proof {
                    let all = missing_messages(fields@.len() as nat);
                    let k = i - fields@.len();
                    assert(all[k] == text@);
                    assert(texts(errors@) =~= before.push(text@));
                    assert(all.take(k + 1) =~= all.take(k).push(all[k]));
                    if k == 0 {
                        assert(before =~= Seq::<Seq<char>>::empty());
                        assert(all.take(0) =~= Seq::<Seq<char>>::empty());
                    }
                }
            }
            i = i + 1;
        }
        // Continue only if none of the collected values is missing (no errors are present).
        if fields.len() < 6 {
            proof {
                let all = missing_messages(fields@.len() as nat);
                assert(all.take(6 - fields@.len()) =~= all);
                assert(texts(fields@).len() == fields@.len());
            }
            return Err(errors);
        }
        proof {
            assert(texts(fields@).len() == fields@.len());
            assert(texts(fields@)[0] == fields@[0]@);
            assert(texts(fields@)[1] == fields@[1]@);
            assert(texts(fields@)[2] == fields@[2]@);
            assert(texts(fields@)[3] == fields@[3]@);
            assert(texts(fields@)[4] == fields@[4]@);
            assert(texts(fields@)[5] == fields@[5]@);
            assert(texts(errors@) =~= Seq::<Seq<char>>::empty());
        }
        // Parse values.
        let timestamp = parse_rfc3339(fields[0].as_str());
        if timestamp.is_none() {
            let label = Items::Timestamp.get_label();
            let ghost before = texts(errors@);
            let text = message("The line item <", &label, "> can not be parsed (wrong format)!");
            errors.push(text);
            assert(texts(errors@) =~= before + unread(false, Items::Timestamp));
        }
        let ghost after_timestamp = texts(errors@);
        assert(after_timestamp =~= unread(timestamp.is_some(), Items::Timestamp));
        let forward_factor = parse_factor(fields[4].clone());
        if forward_factor.is_none() {
            let label = Items::ForwardFactor.get_label();
            let text = message("The line item <", &label, "> can not be parsed (wrong format)!");
            errors.push(text);
            assert(texts(errors@) =~= after_timestamp + unread(false, Items::ForwardFactor));
        }
        let ghost after_forward = texts(errors@);
        assert(after_forward =~= after_timestamp + unread(
            forward_factor.is_some(),
            Items::ForwardFactor,
        ));
        let backward_factor = parse_factor(fields[5].clone());
        if backward_factor.is_none() {
            let label = Items::BackwardFactor.get_label();
            let text = message("The line item <", &label, "> can not be parsed (wrong format)!");
            errors.push(text);
            assert(texts(errors@) =~= after_forward + unread(false, Items::BackwardFactor));
        }
        assert(texts(errors@) =~= after_forward + unread(
            backward_factor.is_some(),
            Items::BackwardFactor,
        ));
        // Continue only if all values were parsed successfully (no errors are present).
        match (timestamp, forward_factor, backward_factor) {
            (Some(timestamp), Some(forward_factor), Some(backward_factor)) => {
                // Making the rest of values uppercase to be more robust.
                let exchange = to_uppercase(fields[1].as_str());
                let source_currency = to_uppercase(fields[2].as_str());
                let destination_currency = to_uppercase(fields[3].as_str());
                Ok(
                    Self::new(
                        timestamp,
                        exchange,
                        source_currency,
                        destination_currency,
                        forward_factor,
                        backward_factor,
                    ),
                )
            },
            _ => Err(errors),
        }
    }

    /// Create a new instance of `PriceUpdate` structure.
    pub fn new(
        timestamp: Timestamp,
        exchange: String,
        source_currency: String,
        destination_currency: String,
        forward_factor: E,
        backward_factor: E,
    ) -> (r: Self)
        ensures
            r@ == (QuoteView {
                timestamp,
                exchange: exchange@,
                source_currency: source_currency@,
                destination_currency: destination_currency@,
                forward_factor,
                backward_factor,
            }),
    {
        Self {
            timestamp,
            exchange,
            source_currency,
            destination_currency,
            forward_factor,
            backward_factor,
        }
    }

    /// Get Index identifying current instance by its primary keys.
    pub fn get_index(&self) -> (r: (String, String, String))
        ensures
            (r.0@, r.1@, r.2@) == self@.key(),
    {
        (self.exchange.clone(), self.source_currency.clone(), self.destination_currency.clone())
    }

    /// Get timestamp.
    pub fn get_timestamp(&self) -> (r: &Timestamp)
        ensures
            *r == self@.timestamp,
    {
        &self.timestamp
    }

    pub fn get_exchange(&self) -> (r: &String)
        ensures
            r@ == self@.exchange,
    {
        &self.exchange
    }

    pub fn get_source_currency(&self) -> (r: &String)
        ensures
            r@ == self@.source_currency,
    {
        &self.source_currency
    }

    pub fn get_destination_currency(&self) -> (r: &String)
        ensures
            r@ == self@.destination_currency,
    {
        &self.destination_currency
    }

    pub fn get_forward_factor(&self) -> (r: &E)
        ensures
            *r == self@.forward_factor,
    {
        &self.forward_factor
    }

    pub fn get_backward_factor(&self) -> (r: &E)
        ensures
            *r == self@.backward_factor,
    {
        &self.backward_factor
    }
}

} // verus!
