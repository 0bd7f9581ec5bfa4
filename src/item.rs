use vstd::prelude::*;

verus! {

/// Comment count or score above which a story is notable.
pub const NOTABLE_THRESHOLD: u64 = 200;

/// One entry of the feed, as the item endpoint returns it.
///
/// Every field but the identifier may be absent from the payload.
#[derive(Clone, Debug)]
pub struct HNItem {
    pub id: u64,
    pub deleted: Option<bool>,
    pub kind: Option<String>,
    pub by: Option<String>,
    pub time: Option<u64>,
    pub text: Option<String>,
    /// The feed sends this flag as a boolean, like `deleted`.
    pub dead: Option<bool>,
    pub parent: Option<u64>,
    pub kids: Option<Vec<u64>>,
    pub url: Option<String>,
    pub score: Option<u64>,
    pub title: Option<String>,
    pub descendants: Option<u64>,
}

/// Why an item could not be rendered as a story line.
#[derive(Clone, Copy, Debug, PartialEq, Eq, Structural)]
pub enum StoryError {
    NotAStory,
}

/// The character of a decimal digit.
pub open spec fn digit_char(d: nat) -> char {
    if d == 0 {
        '0'
    } else if d == 1 {
        '1'
    } else if d == 2 {
        '2'
    } else if d == 3 {
        '3'
    } else if d == 4 {
        '4'
    } else if d == 5 {
        '5'
    } else if d == 6 {
        '6'
    } else if d == 7 {
        '7'
    } else if d == 8 {
        '8'
    } else {
        '9'
    }
}

/// The decimal rendering of `n`, without leading zeros.
pub open spec fn decimal(n: nat) -> Seq<char>
    decreases n,
{
    if n < 10 {
        seq![digit_char(n)]
    } else {
        decimal(n / 10).push(digit_char(n % 10))
    }
}

/// An absent count reads as zero.
pub open spec fn count_or_zero(c: Option<u64>) -> u64 {
    match c {
        Some(v) => v,
        None => 0,
    }
}

/// An absent text reads as the empty text.
pub open spec fn text_or_empty(t: Option<String>) -> Seq<char> {
    match t {
        Some(s) => s@,
        None => Seq::empty(),
    }
}

/// Prefix of the feed's own page for an item.
pub open spec fn permalink_prefix() -> Seq<char> {
    "https://news.ycombinator.com/item?id="@
}

/// The feed's own page for the item `id`.
pub open spec fn permalink(id: u64) -> Seq<char> {
    permalink_prefix() + decimal(id as nat)
}

/// A story is notable when either its score or its comment count passes
/// the threshold.
pub open spec fn is_notable(score: u64, comments: u64) -> bool {
    score > NOTABLE_THRESHOLD || comments > NOTABLE_THRESHOLD
}

impl HNItem {
    /// Whether the feed tagged this item a story.
    pub open spec fn is_story(self) -> bool {
        match self.kind {
            Some(k) => k@ == "story"@,
            None => false,
        }
    }

    pub open spec fn score_value(self) -> u64 {
        count_or_zero(self.score)
    }

    pub open spec fn comment_count(self) -> u64 {
        count_or_zero(self.descendants)
    }

    pub open spec fn notable(self) -> bool {
        is_notable(self.score_value(), self.comment_count())
    }

    /// Only a notable story is worth a message.
    pub open spec fn notable_story(self) -> bool {
        self.is_story() && self.notable()
    }

    /// Where the story points: the link the feed gave, else the feed's own page.
    pub open spec fn target_url(self) -> Seq<char> {
        match self.url {
            Some(u) => u@,
            None => permalink(self.id),
        }
    }

    /// `"{title} {url} ({score} votes, {comments} comments)"`.
    pub open spec fn story_line(self) -> Seq<char> {
        text_or_empty(self.title) + " "@ + self.target_url() + " ("@
            + decimal(self.score_value() as nat) + " votes, "@
            + decimal(self.comment_count() as nat) + " comments)"@
    }
}

/// The one-character text of a decimal digit.
fn digit_str(d: u64) -> (r: &'static str)
    requires
        d < 10,
    ensures
        r@ == seq![digit_char(d as nat)],
{
    match d {
        0 => {
            proof { reveal_strlit("0"); }
            "0"
        },
        1 => {
            proof { reveal_strlit("1"); }
            "1"
        },
        2 => {
            proof { reveal_strlit("2"); }
            "2"
        },
        3 => {
            proof { reveal_strlit("3"); }
            "3"
        },
        4 => {
            proof { reveal_strlit("4"); }
            "4"
        },
        5 => {
            proof { reveal_strlit("5"); }
            "5"
        },
        6 => {
            proof { reveal_strlit("6"); }
            "6"
        },
        7 => {
            proof { reveal_strlit("7"); }
            "7"
        },
        8 => {
            proof { reveal_strlit("8"); }
            "8"
        },
        _ => {
            proof { reveal_strlit("9"); }
            "9"
        },
    }
}

/// Appends the decimal rendering of `n` to `s`.
fn push_decimal(s: &mut String, n: u64)
    ensures
        final(s)@ == old(s)@ + decimal(n as nat),
    decreases n,
{
    if n >= 10 {
        push_decimal(s, n / 10);
    }
    s.append(digit_str(n % 10));
}

/// An absent count reads as zero.
fn or_zero(c: Option<u64>) -> (r: u64)
    ensures
        r == count_or_zero(c),
{
    match c {
        Some(v) => v,
        None => 0,
    }
}

impl HNItem {
    /// Whether the feed tagged this item a story.
    pub fn is_story_kind(&self) -> (r: bool)
        ensures
            r == self.is_story(),
    {
        let story = String::from_str("story");
        match &self.kind {
            Some(k) => *k == story,
            None => false,
        }
    }

    /// Whether a run notifies about this item: a story that is notable.
    pub fn is_notable_story(&self) -> (r: bool)
        ensures
            r == self.notable_story(),
    {
        self.is_story_kind() && self.selected()
    }

    /// The link a message gives for this item: the one the feed supplied,
    /// or else the item's page on the feed's site.
    pub fn url(&self) -> (r: String)
        ensures
            r@ == self.target_url(),
    {
        match &self.url {
            Some(u) => u.clone(),
            None => {
                let mut s = String::from_str("https://news.ycombinator.com/item?id=");
                push_decimal(&mut s, self.id);
                s
            },
        }
    }

    /// The one-line message for a story; any other kind of item is refused.
    pub fn format_story(&self) -> (r: Result<String, StoryError>)
        ensures
            match r {
                Ok(line) => self.is_story() && line@ == self.story_line(),
                Err(e) => !self.is_story() && e == StoryError::NotAStory,
            },
    {
        if !self.is_story_kind() {
            return Err(StoryError::NotAStory);
        }
        let mut line = match &self.title {
            Some(t) => t.clone(),
            None => String::new(),
        };
        line.append(" ");
        let target = self.url();
        line.append(target.as_str());
        line.append(" (");
        push_decimal(&mut line, or_zero(self.score));
        line.append(" votes, ");
        push_decimal(&mut line, or_zero(self.descendants));
        line.append(" comments)");
        proof {
            assert(line@ =~= self.story_line());
        }
        Ok(line)
    }

    /// Whether the item deserves a message: its score or its comment count
    /// is above the threshold.
    pub fn selected(&self) -> (r: bool)
        ensures
            r == self.notable(),
            r == (self.score_value() > 200 || self.comment_count() > 200),
    {
        or_zero(self.descendants) > NOTABLE_THRESHOLD || or_zero(self.score) > NOTABLE_THRESHOLD
    }
}

} // verus!
