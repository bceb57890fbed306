//! Retrieving all variables of the device.
use crate::buffer::{buffer_from_slice, buffer_new, Completion, CompletionView};
use crate::client::{check_sent, read_response, Step};
use crate::client::{
    is_progress, lemma_progress_tail, okay_at, progress_before, reply, sent, verdict, StepView,
};
use crate::device::NusbFastBoot;
use crate::error::{ErrorView, NusbFastBootError};
use crate::protocol::{
    law_arguments_are_carried_whole, FastBootCommand, FastBootResponse, ResponseView,
};
use crate::text::{
    law_text_is_parted_at_the_last_delimiter, law_text_without_delimiter_is_not_parted,
    part_at_last, parted_at_last, trimmed,
};
use vstd::prelude::*;
use vstd::utf8::{encode_utf8, is_ascii_chars_encode_utf8};

verus! {

/// Whether an entry is for a name.
pub open spec fn is_for(entry: (String, String), name: Seq<char>) -> bool {
    entry.0@ == name
}

/// Whether entries give each variable once, with its value, and no others.
pub open spec fn lists(entries: Seq<(String, String)>, vars: Map<Seq<char>, Seq<char>>) -> bool {
    &&& forall|i: int|
        0 <= i < entries.len() ==> vars.contains_key((#[trigger] entries[i]).0@)
            && vars[entries[i].0@] == entries[i].1@
    &&& forall|name: Seq<char>| #[trigger]
        vars.contains_key(name) ==> exists|i: int|
            0 <= i < entries.len() && is_for(#[trigger] entries[i], name)
    &&& forall|i: int, j: int|
        0 <= i < j < entries.len() ==> (#[trigger] entries[i]).0@ != (#[trigger] entries[j]).0@
}

/// Variables by name. A name occurs once; a value set for it takes the place of the one before.
pub struct Vars {
    entries: Vec<(String, String)>,
}

impl View for Vars {
    type V = Map<Seq<char>, Seq<char>>;

    closed spec fn view(&self) -> Map<Seq<char>, Seq<char>> {
        Map::new(
            |name: Seq<char>|
                exists|i: int|
                    0 <= i < self.entries@.len() && is_for(#[trigger] self.entries@[i], name),
            |name: Seq<char>|
                {
                    let i = choose|i: int|
                        0 <= i < self.entries@.len() && is_for(#[trigger] self.entries@[i], name);
                    self.entries@[i].1@
                },
        )
    }
}

impl Vars {
    #[verifier::type_invariant]
    spec fn well_formed(self) -> bool {
        forall|i: int, j: int|
            0 <= i < j < self.entries@.len() ==> (#[trigger] self.entries@[i]).0@ != (
            #[trigger] self.entries@[j]).0@
    }

    proof fn lemma_lists(self)
        requires
            self.well_formed(),
        ensures
            lists(self.entries@, self@),
    {
        let entries = self.entries@;
        assert forall|i: int| 0 <= i < entries.len() implies self@.contains_key(
            (#[trigger] entries[i]).0@,
        ) && self@[entries[i].0@] == entries[i].1@ by {
            let name = entries[i].0@;
            assert(is_for(entries[i], name));
            let k = choose|k: int| 0 <= k < entries.len() && is_for(#[trigger] entries[k], name);
            assert(is_for(entries[k], name));
            assert(k == i);
        }
    }

    proof fn lemma_listed(self, vars: Map<Seq<char>, Seq<char>>)
        requires
            lists(self.entries@, vars),
        ensures
            self@ == vars,
    {
        self.lemma_lists();
        assert forall|name: Seq<char>| #[trigger]
            self@.contains_key(name) implies vars.contains_key(name) && self@[name]
            == vars[name] by {
            let i = choose|i: int|
                0 <= i < self.entries@.len() && is_for(#[trigger] self.entries@[i], name);
            assert(vars.contains_key(self.entries@[i].0@));
        }
        assert(self@ =~= vars);
    }

    /// No variables.
    pub fn new() -> (vars: Vars)
        ensures
            vars@ == Map::<Seq<char>, Seq<char>>::empty(),
    {
        let vars = Vars { entries: Vec::new() };
        assert(vars@ =~= Map::<Seq<char>, Seq<char>>::empty());
        vars
    }

    /// The variables with one set.
    pub fn insert(self, name: String, value: String) -> (vars: Vars)
        ensures
            vars@ == self@.insert(name@, value@),
    {
        proof {
            use_type_invariant(&self);
            self.lemma_lists();
        }
        let ghost before = self@;
        let ghost key = name@;
        let ghost text = value@;
        let ghost listed = self.entries@;
        let mut entries = self.entries;
        let mut i: usize = 0;
        while i < entries.len()
            invariant
                i <= entries.len(),
                before == self@,
                entries@ == listed,
                key == name@,
                text == value@,
                lists(listed, before),
                forall|j: int| 0 <= j < i ==> (#[trigger] listed[j]).0@ != key,
            decreases entries.len() - i,
        {
            if entries[i].0 == name {
                entries.set(i, (name, value));
                let vars = Vars { entries };
                proof {
                    let set = before.insert(key, text);
                    let now = vars.entries@;
                    assert forall|n: Seq<char>| #[trigger] set.contains_key(n) implies exists|j: int|
                        0 <= j < now.len() && is_for(#[trigger] now[j], n) by {
                        if n == key {
                            assert(is_for(now[i as int], n));
                        } else {
                            let j = choose|j: int|
                                0 <= j < listed.len() && is_for(#[trigger] listed[j], n);
                            assert(is_for(now[j], n));
                        }
                    }
                    vars.lemma_listed(set);
                }
                return vars;
            }
            i = i + 1;
        }
        entries.push((name, value));
        let vars = Vars { entries };
        proof {
            let set = before.insert(key, text);
            let now = vars.entries@;
            assert forall|n: Seq<char>| #[trigger] set.contains_key(n) implies exists|j: int|
                0 <= j < now.len() && is_for(#[trigger] now[j], n) by {
                if n == key {
                    assert(is_for(now[listed.len() as int], n));
                } else {
                    let j = choose|j: int| 0 <= j < listed.len() && is_for(#[trigger] listed[j], n);
                    assert(is_for(now[j], n));
                }
            }
            vars.lemma_listed(set);
        }
        vars
    }

    /// The variables, name and value, each once.
    pub fn into_entries(self) -> (entries: Vec<(String, String)>)
        ensures
            lists(entries@, self@),
    {
        proof {
            use_type_invariant(&self);
            self.lemma_lists();
        }
        self.entries
    }
}

/// The variables after a line of the listing: name and value stand on the two sides of the last
/// colon, with or without space around them. A line without a colon says nothing.
pub open spec fn with_line(vars: Map<Seq<char>, Seq<char>>, line: Seq<char>) -> Map<
    Seq<char>,
    Seq<char>,
> {
    match parted_at_last(line, ':') {
        Some((name, value)) => vars.insert(trimmed(name), trimmed(value)),
        None => vars,
    }
}

/// The listing of all variables, under way
pub struct Listing {
    max_in: u16,
    in_flight: Option<usize>,
    vars: Vars,
}

/// What there is to say of a [`Listing`].
pub struct ListingView {
    /// The size of the transfers that replies are read in.
    pub max_in: u16,
    /// The length of the command, while its transfer is not completed.
    pub in_flight: Option<usize>,
    /// The variables listed so far.
    pub vars: Map<Seq<char>, Seq<char>>,
}

impl View for Listing {
    type V = ListingView;

    closed spec fn view(&self) -> ListingView {
        ListingView { max_in: self.max_in, in_flight: self.in_flight, vars: self.vars@ }
    }
}

impl ListingView {
    /// Asks for the next line.
    pub open spec fn listen(max_in: u16, vars: Map<Seq<char>, Seq<char>>) -> StepView<
        ListingView,
        Map<Seq<char>, Seq<char>>,
    > {
        StepView::In(max_in as nat, ListingView { max_in, in_flight: None, vars })
    }

    /// What follows on a completion.
    pub open spec fn step(self, completion: CompletionView) -> StepView<
        ListingView,
        Map<Seq<char>, Seq<char>>,
    > {
        match self.in_flight {
            Some(expected) => match sent(expected, completion) {
                Err(e) => StepView::Done(Err(e)),
                Ok(()) => Self::listen(self.max_in, self.vars),
            },
            None => match reply(completion) {
                Err(e) => StepView::Done(Err(e)),
                Ok(ResponseView::Info(line)) => Self::listen(
                    self.max_in,
                    with_line(self.vars, line),
                ),
                Ok(ResponseView::Text(_)) => Self::listen(self.max_in, self.vars),
                Ok(ResponseView::Data(_)) => StepView::Done(
                    Err(ErrorView::FastbootUnexpectedReply),
                ),
                Ok(ResponseView::Okay(_)) => StepView::Done(Ok(self.vars)),
                Ok(ResponseView::Fail(reason)) => StepView::Done(
                    Err(ErrorView::FastbootFailed(reason)),
                ),
            },
        }
    }

    /// The outcome once the given transfers have completed, if there is one by then.
    pub open spec fn run(self, completions: Seq<CompletionView>) -> Option<
        Result<Map<Seq<char>, Seq<char>>, ErrorView>,
    >
        decreases completions.len(),
    {
        if completions.len() == 0 {
            None
        } else {
            match self.step(completions[0]) {
                StepView::Out(_, next) => next.run(completions.drop_first()),
                StepView::In(_, next) => next.run(completions.drop_first()),
                StepView::Done(outcome) => Some(outcome),
            }
        }
    }
}

fn add_line(vars: Vars, line: String) -> (added: Vars)
    ensures
        added@ == with_line(vars@, line@),
{
    match part_at_last(line.as_str(), ':') {
        Some((name, value)) => vars.insert(name.trim().to_string(), value.trim().to_string()),
        None => vars,
    }
}

impl Listing {
    fn listen(max_in: u16, vars: Vars) -> (next: Step<Listing, Vars>)
        ensures
            next@ == ListingView::listen(max_in, vars@),
    {
        Step::In(buffer_new(max_in as usize), Listing { max_in, in_flight: None, vars })
    }

    /// Takes the completion of the transfer that the last step asked for.
    pub fn step(self, completion: Completion) -> (next: Step<Listing, Vars>)
        ensures
            next@ == self@.step(completion@),
    {
        let max_in = self.max_in;
        match self.in_flight {
            Some(expected) => match check_sent(expected, &completion) {
                Err(e) => Step::Done(Err(e)),
                Ok(()) => Self::listen(max_in, self.vars),
            },
            None => match read_response(&completion) {
                Err(e) => Step::Done(Err(e)),
                Ok(FastBootResponse::Info(line)) => Self::listen(
                    max_in,
                    add_line(self.vars, line),
                ),
                Ok(FastBootResponse::Text(_)) => Self::listen(max_in, self.vars),
                Ok(FastBootResponse::Data(_)) => Step::Done(
                    Err(NusbFastBootError::FastbootUnexpectedReply),
                ),
                Ok(FastBootResponse::Okay(_)) => Step::Done(Ok(self.vars)),
                Ok(FastBootResponse::Fail(fail)) => Step::Done(
                    Err(NusbFastBootError::FastbootFailed(fail)),
                ),
            },
        }
    }
}

impl NusbFastBoot {
    /// Retrieve all variables
    pub fn get_all_vars(&self) -> (next: Step<Listing, Vars>)
        ensures
            next@ == StepView::<_, Map<Seq<char>, Seq<char>>>::Out(
                FastBootCommand::GetVar("all").wire(),
                ListingView {
                    max_in: self.max_in,
                    in_flight: Some(FastBootCommand::GetVar("all").wire().len() as usize),
                    vars: Map::empty(),
                },
            ),
            next@ matches StepView::Out(bytes, _) && bytes == encode_utf8("getvar:all"@),
    {
        let command = FastBootCommand::GetVar("all").to_bytes();
        proof {
            reveal_strlit("getvar:");
            reveal_strlit("all");
            is_ascii_chars_encode_utf8("getvar:"@);
            is_ascii_chars_encode_utf8("all"@);
            law_listing_asks_for_all();
        }
        Step::Out(
            buffer_from_slice(command.as_slice()),
            Listing { max_in: self.max_in, in_flight: Some(command.len()), vars: Vars::new() },
        )
    }
}

/// The variables after a series of transfers, each of which brought an INFO or TEXT response.
pub open spec fn with_lines(
    vars: Map<Seq<char>, Seq<char>>,
    completions: Seq<CompletionView>,
) -> Map<Seq<char>, Seq<char>>
    decreases completions.len(),
{
    if completions.len() == 0 {
        vars
    } else {
        match reply(completions[0]) {
            Ok(ResponseView::Info(line)) => with_lines(
                with_line(vars, line),
                completions.drop_first(),
            ),
            _ => with_lines(vars, completions.drop_first()),
        }
    }
}

/// Running over INFO and TEXT responses is running what follows them, with the lines taken down.
proof fn lemma_lines_are_taken_down(listing: ListingView, completions: Seq<CompletionView>, n: int)
    requires
        listing.in_flight is None,
        progress_before(completions, n),
    ensures
        listing.run(completions) == (ListingView {
            vars: with_lines(listing.vars, completions.take(n)),
            ..listing
        }).run(completions.skip(n)),
    decreases n,
{
    if n > 0 {
        let rest = completions.drop_first();
        lemma_progress_tail(completions, n);
        assert(completions.take(n)[0] == completions[0]);
        assert(completions.take(n).drop_first() =~= rest.take(n - 1));
        let vars = match reply(completions[0]) {
            Ok(ResponseView::Info(line)) => with_line(listing.vars, line),
            _ => listing.vars,
        };
        lemma_lines_are_taken_down(ListingView { vars, ..listing }, rest, n - 1);
    } else {
        assert(completions.take(0) =~= Seq::<CompletionView>::empty());
        assert(completions.skip(0) =~= completions);
    }
}

/// The listing is what the INFO lines before the OKAY say, one after the other, and nothing
/// else.
pub proof fn law_listing_is_what_the_lines_say(
    listing: ListingView,
    completions: Seq<CompletionView>,
    n: int,
)
    requires
        listing.in_flight is None,
        okay_at(completions, n),
    ensures
        listing.run(completions) == Some(
            Ok::<_, ErrorView>(with_lines(listing.vars, completions.take(n))),
        ),
{
    lemma_lines_are_taken_down(listing, completions, n);
    assert(completions.skip(n)[0] == completions[n]);
}

/// A listing whose command was not sent whole fails at once; one whose command was is in the hands
/// of the device.
pub proof fn law_listing_is_asked_for_first(
    listing: ListingView,
    expected: usize,
    completions: Seq<CompletionView>,
)
    requires
        listing.in_flight == Some(expected),
        completions.len() > 0,
    ensures
        sent(expected, completions[0]) matches Err(e) ==> listing.run(completions) == Some(
            Err::<Map<Seq<char>, Seq<char>>, _>(e),
        ),
        sent(expected, completions[0]) is Ok ==> listing.run(completions) == (ListingView {
            in_flight: None,
            ..listing
        }).run(completions.drop_first()),
{
}

/// No listing comes of a device that does not say OKAY: the first transfer that is neither
/// progress nor OKAY decides with an error.
pub proof fn law_listing_fails_without_okay(
    listing: ListingView,
    completions: Seq<CompletionView>,
    n: int,
)
    requires
        listing.in_flight is None,
        n < completions.len(),
        progress_before(completions, n),
        !is_progress(completions[n]),
        !okay_at(completions, n),
    ensures
        listing.run(completions) matches Some(Err(e)) && verdict(completions[n])
            == Err::<Seq<char>, _>(e),
{
    lemma_lines_are_taken_down(listing, completions, n);
    assert(completions.skip(n)[0] == completions[n]);
}

/// Of two lines on one variable the later counts.
pub proof fn law_later_line_counts(
    vars: Map<Seq<char>, Seq<char>>,
    earlier: Seq<char>,
    later: Seq<char>,
)
    requires
        parted_at_last(earlier, ':') matches Some(e) && parted_at_last(later, ':') matches Some(l)
            && trimmed(e.0) == trimmed(l.0),
    ensures
        with_line(with_line(vars, earlier), later) == with_line(vars, later),
{
    assert(with_line(with_line(vars, earlier), later) =~= with_line(vars, later));
}

/// A line that is a name, a colon and a value, with no colon in the value, gives that variable that
/// value, both without the space around them, however many variables there are and whatever it
/// was before. All other variables stay as they are.
pub proof fn law_line_sets_its_variable(
    vars: Map<Seq<char>, Seq<char>>,
    name: Seq<char>,
    value: Seq<char>,
    other: Seq<char>,
)
    requires
        !value.contains(':'),
        other != trimmed(name),
    ensures
        ({
            let after = with_line(vars, name + seq![':'] + value);
            &&& after.contains_key(trimmed(name))
            &&& after[trimmed(name)] == trimmed(value)
            &&& after.contains_key(other) <==> vars.contains_key(other)
            &&& vars.contains_key(other) ==> after[other] == vars[other]
        }),
{
    law_text_is_parted_at_the_last_delimiter(name + seq![':'] + value, ':', name, value);
}

/// A line without a colon changes nothing.
pub proof fn law_line_without_colon_says_nothing(
    vars: Map<Seq<char>, Seq<char>>,
    line: Seq<char>,
)
    requires
        !line.contains(':'),
    ensures
        with_line(vars, line) == vars,
{
    law_text_without_delimiter_is_not_parted(line, ':');
}

/// Every variable that the device lists is in the listing, with the value of the last line on it:
/// it is there where some line is on it, and it has the value of a line behind which there is none
/// on it.
pub proof fn law_every_line_is_listed(
    listing: ListingView,
    completions: Seq<CompletionView>,
    n: int,
    k: int,
    name: Seq<char>,
    value: Seq<char>,
)
    requires
        listing.in_flight is None,
        okay_at(completions, n),
        0 <= k < n,
        reply(completions[k]) == Ok::<_, ErrorView>(
            ResponseView::Info(name + seq![':'] + value),
        ),
        !value.contains(':'),
        forall|i: int, later: Seq<char>, its: Seq<char>|
            k < i < n && reply(#[trigger] completions[i]) == Ok::<_, ErrorView>(
                ResponseView::Info(#[trigger] (later + seq![':'] + its)),
            ) && !its.contains(':') ==> trimmed(later) != trimmed(name),
    ensures
        listing.run(completions) matches Some(Ok(vars)) && vars.contains_key(trimmed(name))
            && vars[trimmed(name)] == trimmed(value),
{
    law_listing_is_what_the_lines_say(listing, completions, n);
    let lines = completions.take(n);
    let key = trimmed(name);
    assert(lines[k] == completions[k]);
    assert forall|i: int| k < i < n implies !is_on(#[trigger] lines[i], key) by {
        assert(lines[i] == completions[i]);
        if is_on(lines[i], key) {
            let line = reply(lines[i])->Ok_0->Info_0;
            let (later, its) = parted_at_last(line, ':')->0;
            lemma_parts(line);
            assert(line == later + seq![':'] + its);
        }
    }
    lemma_line_is_listed(listing.vars, lines, k, name, value);
}

/// Whether a transfer brought a line on a variable.
spec fn is_on(completion: CompletionView, key: Seq<char>) -> bool {
    reply(completion) matches Ok(ResponseView::Info(line)) && parted_at_last(
        line,
        ':',
    ) matches Some((name, _)) && trimmed(name) == key
}

proof fn lemma_parts(line: Seq<char>)
    ensures
        match parted_at_last(line, ':') {
            Some((name, value)) => line == name + seq![':'] + value && !value.contains(':'),
            None => !line.contains(':'),
        },
    decreases line.len(),
{
    if line.len() > 0 {
        let shorter = line.drop_last();
        assert(line =~= shorter.push(line.last()));
        if line.last() == ':' {
            assert(line =~= shorter + seq![':'] + Seq::<char>::empty());
        } else {
            lemma_parts(shorter);
            match parted_at_last(shorter, ':') {
                Some((name, value)) => {
                    let longer = value.push(line.last());
                    assert(line =~= name + seq![':'] + longer);
                    assert forall|i: int| 0 <= i < longer.len() implies longer[i] != ':' by {
                        if i < value.len() {
                            assert(value.contains(value[i]));
                        }
                    }
                },
                None => {
                    assert forall|i: int| 0 <= i < line.len() implies line[i] != ':' by {
                        if i < shorter.len() {
                            assert(shorter.contains(shorter[i]));
                        }
                    }
                },
            }
        }
    }
}

proof fn lemma_others_stay(
    vars: Map<Seq<char>, Seq<char>>,
    lines: Seq<CompletionView>,
    key: Seq<char>,
)
    requires
        forall|i: int| 0 <= i < lines.len() ==> !is_on(#[trigger] lines[i], key),
    ensures
        with_lines(vars, lines).contains_key(key) <==> vars.contains_key(key),
        vars.contains_key(key) ==> with_lines(vars, lines)[key] == vars[key],
    decreases lines.len(),
{
    if lines.len() > 0 {
        let rest = lines.drop_first();
        assert(!is_on(lines[0], key));
        assert forall|i: int| 0 <= i < rest.len() implies !is_on(#[trigger] rest[i], key) by {
            assert(rest[i] == lines[i + 1]);
        }
        let next = match reply(lines[0]) {
            Ok(ResponseView::Info(line)) => with_line(vars, line),
            _ => vars,
        };
        lemma_others_stay(next, rest, key);
    }
}

proof fn lemma_line_is_listed(
    vars: Map<Seq<char>, Seq<char>>,
    lines: Seq<CompletionView>,
    k: int,
    name: Seq<char>,
    value: Seq<char>,
)
    requires
        0 <= k < lines.len(),
        reply(lines[k]) == Ok::<_, ErrorView>(ResponseView::Info(name + seq![':'] + value)),
        !value.contains(':'),
        forall|i: int| k < i < lines.len() ==> !is_on(#[trigger] lines[i], trimmed(name)),
    ensures
        with_lines(vars, lines).contains_key(trimmed(name)),
        with_lines(vars, lines)[trimmed(name)] == trimmed(value),
    decreases lines.len(),
{
    let rest = lines.drop_first();
    let next = match reply(lines[0]) {
        Ok(ResponseView::Info(line)) => with_line(vars, line),
        _ => vars,
    };
    assert forall|i: int| k - 1 < i < rest.len() implies !is_on(
        #[trigger] rest[i],
        trimmed(name),
    ) by {
        assert(rest[i] == lines[i + 1]);
    }
    if k == 0 {
        law_text_is_parted_at_the_last_delimiter(name + seq![':'] + value, ':', name, value);
        lemma_others_stay(next, rest, trimmed(name));
    } else {
        assert(rest[k - 1] == lines[k]);
        lemma_line_is_listed(next, rest, k - 1, name, value);
    }
}

/// Nothing is listed that the device did not list: a variable that no line is on is as it was
/// before the listing, where nothing is.
pub proof fn law_nothing_else_is_listed(
    listing: ListingView,
    completions: Seq<CompletionView>,
    n: int,
    key: Seq<char>,
)
    requires
        listing.in_flight is None,
        okay_at(completions, n),
        forall|i: int, name: Seq<char>, value: Seq<char>|
            0 <= i < n && reply(#[trigger] completions[i]) == Ok::<_, ErrorView>(
                ResponseView::Info(#[trigger] (name + seq![':'] + value)),
            ) && !value.contains(':') ==> trimmed(name) != key,
    ensures
        listing.run(completions) matches Some(Ok(vars)) && {
            &&& vars.contains_key(key) <==> listing.vars.contains_key(key)
            &&& vars.contains_key(key) ==> vars[key] == listing.vars[key]
        },
{
    law_listing_is_what_the_lines_say(listing, completions, n);
    let lines = completions.take(n);
    assert forall|i: int| 0 <= i < n implies !is_on(#[trigger] lines[i], key) by {
        assert(lines[i] == completions[i]);
        if is_on(lines[i], key) {
            let line = reply(lines[i])->Ok_0->Info_0;
            let (name, value) = parted_at_last(line, ':')->0;
            lemma_parts(line);
            assert(line == name + seq![':'] + value);
        }
    }
    lemma_others_stay(listing.vars, lines, key);
}

/// Listed entries are the variables, each once: a name is among them where there is such a
/// variable, its value is the variable's, and no name comes twice.
pub proof fn law_entries_are_the_variables(
    entries: Seq<(String, String)>,
    vars: Map<Seq<char>, Seq<char>>,
    name: Seq<char>,
)
    requires
        lists(entries, vars),
    ensures
        vars.contains_key(name) <==> exists|i: int|
            0 <= i < entries.len() && (#[trigger] entries[i]).0@ == name,
        forall|i: int| 0 <= i < entries.len() ==> (#[trigger] entries[i]).1@ == vars[entries[i].0@],
        forall|i: int, j: int|
            0 <= i < entries.len() && 0 <= j < entries.len() && i != j ==> (
            #[trigger] entries[i]).0@ != (#[trigger] entries[j]).0@,
{
    if vars.contains_key(name) {
        let i = choose|i: int| 0 <= i < entries.len() && is_for(#[trigger] entries[i], name);
        assert(entries[i].0@ == name);
    }
}

/// Each answer is taken for what it is: an INFO line is taken down and a TEXT is not, and the
/// client goes on listening, for a packet at a time; OKAY ends the listing with what was taken
/// down, and anything else ends it as an error.
pub proof fn law_listing_understands_answers(
    listing: ListingView,
    completion: CompletionView,
)
    requires
        listing.in_flight is None,
    ensures
        ({
            let next = listing.step(completion);
            match reply(completion) {
                Ok(ResponseView::Info(line)) => next matches StepView::In(asked, l) && asked
                    == listing.max_in && l.max_in == listing.max_in && l.in_flight is None && l.vars
                    == with_line(listing.vars, line),
                Ok(ResponseView::Text(_)) => next matches StepView::In(asked, l) && asked
                    == listing.max_in && l == listing,
                Ok(ResponseView::Okay(_)) => next matches StepView::Done(Ok(vars)) && vars
                    == listing.vars,
                Ok(ResponseView::Fail(reason)) => next matches StepView::Done(Err(e)) && e
                    == ErrorView::FastbootFailed(reason),
                Ok(ResponseView::Data(_)) => next matches StepView::Done(Err(e)) && e
                    == ErrorView::FastbootUnexpectedReply,
                Err(reason) => next matches StepView::Done(Err(e)) && e == reason,
            }
        }),
{
}

/// All variables are asked for by the name that stands for all.
pub proof fn law_listing_asks_for_all()
    ensures
        FastBootCommand::GetVar("all").wire() == encode_utf8("getvar:all"@),
{
    reveal_strlit("getvar:");
    reveal_strlit("all");
    reveal_strlit("getvar:all");
    law_arguments_are_carried_whole("all");
    assert("getvar:"@ + "all"@ =~= "getvar:all"@);
}

} // verus!
