//! Exchange Rate Path Request.

use crate::ordered_set::{
    query_key_items, query_keys_insert_full, query_keys_new, quote_key_items,
    quote_keys_insert_full, quote_keys_new,
};
use crate::request::exchange_rate_request::{ExchangeRateRequest, QueryView};
use crate::request::price_update::{reads, PriceUpdate, QuoteView};
use crate::text::{split_whitespace, texts, to_uppercase, uppercase, whitespace_fields};
use indexmap::IndexSet;
use vstd::prelude::*;

pub mod exchange_rate_request;
pub mod price_update;

verus! {

/// The keys of the price updates, in order.
pub open spec fn quote_keys<E>(quotes: Seq<QuoteView<E>>) -> Seq<(Seq<char>, Seq<char>, Seq<char>)> {
    Seq::new(quotes.len(), |i: int| quotes[i].key())
}

/// The keys of the queries, in order.
pub open spec fn query_keys(queries: Seq<QueryView>) -> Seq<
    (Seq<char>, Seq<char>, Seq<char>, Seq<char>),
> {
    Seq::new(queries.len(), |i: int| queries[i].key())
}

/// The price updates after `quote` was taken in: where none has its key, it
/// goes to the end; where one has, the later of the two stays in that place,
/// and the one that was there where neither is later.
pub open spec fn quote_added<E>(quotes: Seq<QuoteView<E>>, quote: QuoteView<E>) -> Seq<
    QuoteView<E>,
> {
    let keys = quote_keys(quotes);
    if keys.contains(quote.key()) {
        let i = keys.index_of(quote.key());
        if quote.timestamp.later_than(&quotes[i].timestamp) {
            quotes.update(i, quote)
        } else {
            quotes
        }
    } else {
        quotes.push(quote)
    }
}

/// The queries after `query` was taken in: where none has its key, it goes
/// to the end; where one has, the new one takes its place.
pub open spec fn query_added(queries: Seq<QueryView>, query: QueryView) -> Seq<QueryView> {
    let keys = query_keys(queries);
    if keys.contains(query.key()) {
        queries.update(keys.index_of(query.key()), query)
    } else {
        queries.push(query)
    }
}

/// The price updates and the queries of a request.
pub ghost struct Entries<E> {
    pub quotes: Seq<QuoteView<E>>,
    pub queries: Seq<QueryView>,
}

/// The entries after one line was taken in, where `read` reads a factor. A
/// line of white space alone changes nothing. A line whose first part, in
/// upper case, is the type of a request line is read as a query, and every
/// other line as a price update. A line that cannot be read gives its
/// messages.
pub open spec fn line_taken<E>(
    entries: Entries<E>,
    line: Seq<char>,
    read: spec_fn(Seq<char>) -> Option<E>,
) -> Result<Entries<E>, Seq<Seq<char>>> {
    let fields = whitespace_fields(line);
    if fields.len() == 0 {
        Ok(entries)
    } else if uppercase(fields[0]) == "EXCHANGE_RATE_REQUEST"@ {
        match exchange_rate_request::parsed_line(line) {
            Ok(query) => Ok(
                Entries { quotes: entries.quotes, queries: query_added(entries.queries, query) },
            ),
            Err(messages) => Err(messages),
        }
    } else {
        match price_update::parsed_line(line, read) {
            Ok(quote) => Ok(
                Entries { quotes: quote_added(entries.quotes, quote), queries: entries.queries },
            ),
            Err(messages) => Err(messages),
        }
    }
}

/// The entries after the lines were taken in, in order: the first line that
/// cannot be read ends it, with its messages.
pub open spec fn lines_taken<E>(
    entries: Entries<E>,
    lines: Seq<Seq<char>>,
    read: spec_fn(Seq<char>) -> Option<E>,
) -> Result<Entries<E>, Seq<Seq<char>>>
    decreases lines.len(),
{
    if lines.len() == 0 {
        Ok(entries)
    } else {
        match lines_taken(entries, lines.drop_last(), read) {
            Ok(taken) => line_taken(taken, lines.last(), read),
            Err(messages) => Err(messages),
        }
    }
}

/// A failure at one line is the failure of the whole list.
pub proof fn lemma_lines_fail_on<E>(
    entries: Entries<E>,
    lines: Seq<Seq<char>>,
    read: spec_fn(Seq<char>) -> Option<E>,
    count: int,
)
    requires
        0 <= count <= lines.len(),
    ensures
        lines_taken(entries, lines.take(count), read) is Err ==> lines_taken(entries, lines, read)
            == lines_taken(entries, lines.take(count), read),
    decreases lines.len(),
{
    if count == lines.len() {
        assert(lines.take(count) == lines);
    } else {
        lemma_lines_fail_on(entries, lines.drop_last(), read, count);
        assert(lines.drop_last().take(count) == lines.take(count));
    }
}

/// Exchange Rate Path `Request` structure: the price updates and the
/// queries of one run, each kind without two entries of one key.
///
/// `E` is the edge weight.
pub struct Request<E> {
    price_update_keys: IndexSet<(String, String, String)>,
    price_updates: Vec<PriceUpdate<E>>,
    rate_request_keys: IndexSet<(String, String, String, String)>,
    rate_requests: Vec<ExchangeRateRequest>,
}

impl<E> Request<E> {
    /// The price updates, in the order in which their keys were first seen.
    pub closed spec fn quotes_view(&self) -> Seq<QuoteView<E>> {
        Seq::new(self.price_updates@.len(), |i: int| self.price_updates@[i]@)
    }

    /// The queries, in the order in which their keys were first seen.
    pub closed spec fn queries_view(&self) -> Seq<QueryView> {
        Seq::new(self.rate_requests@.len(), |i: int| self.rate_requests@[i]@)
    }

    /// The representation invariant: the key sets hold the keys of the
    /// entries, in the same order, and no key twice.
    pub closed spec fn wf(&self) -> bool {
        &&& quote_key_items(self.price_update_keys) == quote_keys(self.quotes_view())
        &&& quote_key_items(self.price_update_keys).no_duplicates()
        &&& query_key_items(self.rate_request_keys) == query_keys(self.queries_view())
        &&& query_key_items(self.rate_request_keys).no_duplicates()
    }

    /// What `wf` says, over the public views: no two price updates and no
    /// two queries share a key.
    pub proof fn lemma_wf(&self)
        requires
            self.wf(),
        ensures
            quote_keys(self.quotes_view()).no_duplicates(),
            query_keys(self.queries_view()).no_duplicates(),
    {
    }

    /// Create a new instance of empty `Request` structure.
    pub fn new() -> (r: Self)
        ensures
            r.wf(),
            r.quotes_view() == Seq::<QuoteView<E>>::empty(),
            r.queries_view() == Seq::<QueryView>::empty(),
    {
        let r = Self {
            price_update_keys: quote_keys_new(),
            price_updates: Vec::new(),
            rate_request_keys: query_keys_new(),
            rate_requests: Vec::new(),
        };
        assert(r.quotes_view() =~= Seq::<QuoteView<E>>::empty());
        assert(r.queries_view() =~= Seq::<QueryView>::empty());
        assert(quote_keys(r.quotes_view()) =~= Seq::empty());
        assert(query_keys(r.queries_view()) =~= Seq::empty());
        r
    }

    /// The price updates and the queries.
    pub open spec fn entries(&self) -> Entries<E> {
        Entries { quotes: self.quotes_view(), queries: self.queries_view() }
    }

    /// Read the lines of an input, in order, into a new request.
    /// `parse_factor` reads a factor from its text. The first line that
    /// cannot be read ends the reading, with its messages.
    pub fn read_from<F: Fn(String) -> Option<E>>(lines: &Vec<String>, parse_factor: &F) -> (r: Result<
        Self,
        Vec<String>,
    >)
        requires
            forall|s: String| call_requires(*parse_factor, (s,)),
        ensures
            r matches Ok(request) ==> request.wf(),
            forall|read: spec_fn(Seq<char>) -> Option<E>| #[trigger]
                reads(*parse_factor, read) ==> match lines_taken(
                    Entries { quotes: Seq::empty(), queries: Seq::empty() },
                    texts(lines@),
                    read,
                ) {
                    Ok(entries) => r matches Ok(request) && request.entries() == entries,
                    Err(messages) => r matches Err(errors) && texts(errors@) == messages,
                },
    {
        let mut request = Self::new();
        let ghost start = Entries::<E> { quotes: Seq::empty(), queries: Seq::empty() };
        let mut i: usize = 0;
        // Read all input and process it.
        while i < lines.len()
            invariant
                i <= lines@.len(),
                request.wf(),
                start == (Entries::<E> { quotes: Seq::empty(), queries: Seq::empty() }),
                forall|s: String| call_requires(*parse_factor, (s,)),
                forall|read: spec_fn(Seq<char>) -> Option<E>| #[trigger]
                    reads(*parse_factor, read) ==> lines_taken(
                        start,
                        texts(lines@).take(i as int),
                        read,
                    ) == Ok::<Entries<E>, Seq<Seq<char>>>(request.entries()),
            decreases lines.len() - i,
        {
            let ghost before = request.entries();
            let outcome = request.process_line(&lines[i], parse_factor);
            proof {
                let all = texts(lines@);
                assert(all.take(i + 1).drop_last() == all.take(i as int));
                assert(all.take(i + 1).last() == lines@[i as int]@);
                assert forall|read: spec_fn(Seq<char>) -> Option<E>| #[trigger]
                    reads(*parse_factor, read) implies lines_taken(start, all.take(i + 1), read)
                    == line_taken(before, lines@[i as int]@, read) by {}
            }
            match outcome {
                Ok(_) => {},
                Err(errors) => {
                    proof {
                        assert forall|read: spec_fn(Seq<char>) -> Option<E>| #[trigger]
                            reads(*parse_factor, read) implies lines_taken(
                            start,
                            texts(lines@),
                            read,
                        ) == lines_taken(start, texts(lines@).take(i + 1), read) by {
                            lemma_lines_fail_on(start, texts(lines@), read, i + 1);
                        }
                    }
                    return Err(errors);
                },
            }
            i = i + 1;
        }
        proof {
            assert(texts(lines@).take(lines@.len() as int) == texts(lines@));
        }
        Ok(request)
    }

    /// Take in one line of the input. `parse_factor` reads a factor from
    /// its text. A line that cannot be read changes nothing and gives its
    /// messages.
    pub fn process_line<F: Fn(String) -> Option<E>>(&mut self, line: &String, parse_factor: &F) -> (r:
        Result<(), Vec<String>>)
        requires
            old(self).wf(),
            forall|s: String| call_requires(*parse_factor, (s,)),
        ensures
            final(self).wf(),
            forall|read: spec_fn(Seq<char>) -> Option<E>| #[trigger]
                reads(*parse_factor, read) ==> match line_taken(old(self).entries(), line@, read) {
                    Ok(entries) => r.is_ok() && final(self).entries() == entries,
                    Err(messages) => {
                        &&& r matches Err(errors) && texts(errors@) == messages
                        &&& final(self).entries() == old(self).entries()
                    },
                },
    {
        let fields = split_whitespace(line.as_str());
        // Process the first line item if it exists.
        if fields.len() == 0 {
            proof {
                assert(texts(fields@).len() == 0);
            }
            return Ok(());
        }
        proof {
            assert(texts(fields@).len() == fields@.len());
            assert(texts(fields@)[0] == fields@[0]@);
        }
        // Match the line type based on the first line item.
        // The line item is used as uppercase to be more robust.
        let first_item = to_uppercase(fields[0].as_str());
        if first_item == String::from_str("EXCHANGE_RATE_REQUEST") {
            match ExchangeRateRequest::parse_line(line) {
                Ok(rate_request) => {
                    self.add_rate_request(rate_request);
                    Ok(())
                },
                Err(errors) => Err(errors),
            }
        } else {
            match PriceUpdate::<E>::parse_line(line, parse_factor) {
                Ok(price_update) => {
                    self.add_price_update(price_update);
                    Ok(())
                },
                Err(errors) => Err(errors),
            }
        }
    }

    /// Take in a query. One with the same key that came before is replaced:
    /// the latest stands.
    pub fn add_rate_request(&mut self, rate_request: ExchangeRateRequest)
        requires
            old(self).wf(),
        ensures
            final(self).wf(),
            final(self).queries_view() == query_added(old(self).queries_view(), rate_request@),
            final(self).quotes_view() == old(self).quotes_view(),
    {
        let ghost before = *self;
        let ghost keys = query_keys(before.queries_view());
        let (i, fresh) = query_keys_insert_full(&mut self.rate_request_keys, rate_request.get_index());
        self.rate_requests.push(rate_request);
        if !fresh {
            let _ = self.rate_requests.swap_remove(i);
            proof {
                assert(keys.contains(rate_request@.key()));
                assert(keys.index_of(rate_request@.key()) == i as int);
                assert(self.queries_view() =~= before.queries_view().update(
                    i as int,
                    rate_request@,
                ));
                assert(query_keys(self.queries_view()) =~= keys);
            }
        } else {
            proof {
                assert(self.queries_view() =~= before.queries_view().push(rate_request@));
                assert(query_keys(self.queries_view()) =~= keys.push(rate_request@.key()));
                assert(keys.push(rate_request@.key()).no_duplicates()) by {
                    assert forall|x: int, y: int|
                        0 <= x < keys.len() + 1 && 0 <= y < keys.len() + 1 && x != y implies keys.push(
                        rate_request@.key(),
                    )[x] != keys.push(rate_request@.key())[y] by {
                        if x < keys.len() {
                            assert(keys.contains(keys[x]));
                        }
                        if y < keys.len() {
                            assert(keys.contains(keys[y]));
                        }
                    }
                }
            }
        }
        proof {
            assert(self.quotes_view() =~= before.quotes_view());
        }
    }

    /// Take in a price update. Where one with the same key came before, the
    /// later of the two stands.
    pub fn add_price_update(&mut self, price_update: PriceUpdate<E>)
        requires
            old(self).wf(),
        ensures
            final(self).wf(),
            final(self).quotes_view() == quote_added(old(self).quotes_view(), price_update@),
            final(self).queries_view() == old(self).queries_view(),
    {
        let ghost before = *self;
        let ghost keys = quote_keys(before.quotes_view());
        let (i, fresh) = quote_keys_insert_full(&mut self.price_update_keys, price_update.get_index());
        if fresh {
            self.price_updates.push(price_update);
            proof {
                assert(self.quotes_view() =~= before.quotes_view().push(price_update@));
                assert(quote_keys(self.quotes_view()) =~= keys.push(price_update@.key()));
                assert(keys.push(price_update@.key()).no_duplicates()) by {
                    assert forall|x: int, y: int|
                        0 <= x < keys.len() + 1 && 0 <= y < keys.len() + 1 && x != y implies keys.push(
                        price_update@.key(),
                    )[x] != keys.push(price_update@.key())[y] by {
                        if x < keys.len() {
                            assert(keys.contains(keys[x]));
                        }
                        if y < keys.len() {
                            assert(keys.contains(keys[y]));
                        }
                    }
                }
            }
        } else {
            proof {
                assert(keys.contains(price_update@.key()));
                assert(keys.index_of(price_update@.key()) == i as int);
                assert(keys.len() == before.price_updates@.len());
            }
            // The newly provided `PriceUpdate` is more recent and thus
            // it should replace the already existing entry.
            if price_update.get_timestamp().is_later_than(self.price_updates[i].get_timestamp()) {
                self.price_updates.push(price_update);
                let _ = self.price_updates.swap_remove(i);
                proof {
                    assert(self.quotes_view() =~= before.quotes_view().update(
                        i as int,
                        price_update@,
                    ));
                    assert(quote_keys(self.quotes_view()) =~= keys);
                }
            } else {
                proof {
                    assert(self.quotes_view() =~= before.quotes_view());
                }
            }
        }
        proof {
            assert(self.queries_view() =~= before.queries_view());
        }
    }

    pub fn get_price_updates(&self) -> (r: &Vec<PriceUpdate<E>>)
        ensures
            r@.len() == self.quotes_view().len(),
            forall|i: int| 0 <= i < r@.len() ==> (#[trigger] r@[i])@ == self.quotes_view()[i],
    {
        &self.price_updates
    }

    pub fn get_rate_requests(&self) -> (r: &Vec<ExchangeRateRequest>)
        ensures
            r@.len() == self.queries_view().len(),
            forall|i: int| 0 <= i < r@.len() ==> (#[trigger] r@[i])@ == self.queries_view()[i],
    {
        &self.rate_requests
    }
}

/// Of two price updates of one key that come in one after the other, the
/// later one alone stands, in a single entry; where both bear the same time,
/// it is the first.
pub proof fn lemma_later_quote_stands<E>(
    quotes: Seq<QuoteView<E>>,
    first: QuoteView<E>,
    second: QuoteView<E>,
)
    requires
        quote_keys(quotes).no_duplicates(),
        !quote_keys(quotes).contains(first.key()),
        first.key() == second.key(),
    ensures
        quote_added(quote_added(quotes, first), second) == quotes.push(
            if second.timestamp.later_than(&first.timestamp) {
                second
            } else {
                first
            },
        ),
{
    let one = quote_added(quotes, first);
    assert(one == quotes.push(first));
    let keys = quote_keys(one);
    assert(keys[quotes.len() as int] == first.key());
    assert(keys.contains(second.key()));
    let i = keys.index_of(second.key());
    if i < quotes.len() {
        assert(quote_keys(quotes)[i] == first.key());
        assert(quote_keys(quotes).contains(first.key()));
    }
    assert(i == quotes.len());
    assert(one.update(i, second) =~= quotes.push(second));
}

} // verus!
