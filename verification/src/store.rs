//! The category store: the immutable dictionary plus the write-once
//! override registry, and the public query surface built on both.

use vstd::prelude::*;
use vstd::string::*;
use crate::category::{spec_bit, Category};
use crate::chars::{chars_model, str_eq, str_eq_chars, str_to_chars, strings_model};
use crate::dict::{walk_mask, Dictionary};
use crate::url::{get_host_from_url, host_of};

verus! {

/// A tag naming one override slot: one per category, plus the generic
/// networking slot.
#[derive(Clone, Copy, PartialEq, Eq, Structural, Debug)]
pub enum OverrideTag {
    Bad,
    Ads,
    Tracking,
    Gambling,
    Networking,
}

/// The override slot a textual label selects: "ads", "tracking",
/// "gambling" and "networking" name their slots; any other label falls
/// back to the general bad slot.
pub open spec fn spec_tag_of(s: Seq<char>) -> OverrideTag {
    if s == "ads"@ {
        OverrideTag::Ads
    } else if s == "tracking"@ {
        OverrideTag::Tracking
    } else if s == "gambling"@ {
        OverrideTag::Gambling
    } else if s == "networking"@ {
        OverrideTag::Networking
    } else {
        OverrideTag::Bad
    }
}

/// The override slot consulted for a category.
pub open spec fn tag_for_category(c: Category) -> OverrideTag {
    match c {
        Category::Bad => OverrideTag::Bad,
        Category::Ads => OverrideTag::Ads,
        Category::Tracking => OverrideTag::Tracking,
        Category::Gambling => OverrideTag::Gambling,
    }
}

/// Resolves a textual label to its override slot.
pub fn tag_of_label(label: &str) -> (t: OverrideTag)
    ensures
        t == spec_tag_of(label@),
{
    if str_eq(label, "ads") {
        OverrideTag::Ads
    } else if str_eq(label, "tracking") {
        OverrideTag::Tracking
    } else if str_eq(label, "gambling") {
        OverrideTag::Gambling
    } else if str_eq(label, "networking") {
        OverrideTag::Networking
    } else {
        OverrideTag::Bad
    }
}

/// Resolves a category to its override slot.
pub fn category_tag(c: Category) -> (t: OverrideTag)
    ensures
        t == tag_for_category(c),
{
    match c {
        Category::Bad => OverrideTag::Bad,
        Category::Ads => OverrideTag::Ads,
        Category::Tracking => OverrideTag::Tracking,
        Category::Gambling => OverrideTag::Gambling,
    }
}

/// Registering a tag that already holds a set fails and changes nothing.
#[derive(Clone, Copy, PartialEq, Eq, Structural, Debug)]
pub struct RegistrationConflict;

/// An exact-match set of additional domains for one override slot.
pub struct OverrideSet {
    domains: Vec<Vec<char>>,
}

impl View for OverrideSet {
    type V = Seq<Seq<char>>;

    closed spec fn view(&self) -> Seq<Seq<char>> {
        chars_model(self.domains@)
    }
}

impl OverrideSet {
    /// Collects the given domains into an exact-match set.
    pub fn from_strings(domains: Vec<String>) -> (s: OverrideSet)
        ensures
            s@ == strings_model(domains@),
    {
        let mut v: Vec<Vec<char>> = Vec::new();
        let mut i: usize = 0;
        while i < domains.len()
            invariant
                0 <= i <= domains@.len(),
                v@.len() == i as int,
                chars_model(v@) == strings_model(domains@.subrange(0, i as int)),
            decreases domains@.len() - i,
        {
            let ghost pre = v@;
            v.push(str_to_chars(domains[i].as_str()));
            proof {
                assert forall|j: int| 0 <= j <= i as int implies chars_model(v@)[j]
                    == strings_model(domains@.subrange(0, i as int + 1))[j] by {
                    assert(domains@.subrange(0, i as int + 1)[j] == domains@[j]);
                    if j < i as int {
                        assert(chars_model(pre)[j] == strings_model(
                            domains@.subrange(0, i as int),
                        )[j]);
                        assert(v@[j] == pre[j]);
                        assert(domains@.subrange(0, i as int)[j] == domains@[j]);
                    }
                }
                assert(chars_model(v@) =~= strings_model(domains@.subrange(0, i as int + 1)));
            }
            i = i + 1;
        }
        proof {
            assert(domains@.subrange(0, domains@.len() as int) =~= domains@);
        }
        OverrideSet { domains: v }
    }

    /// Exact membership of `host` in the set; no parent walk on overrides.
    pub fn contains_host(&self, host: &str) -> (r: bool)
        ensures
            r == self@.contains(host@),
    {
        let mut i: usize = 0;
        while i < self.domains.len()
            invariant
                0 <= i <= self.domains@.len(),
                self@.len() == self.domains@.len(),
                forall|j: int| 0 <= j < i ==> self@[j] != host@,
            decreases self.domains@.len() - i,
        {
            proof {
                assert(self@[i as int] == self.domains@[i as int]@);
            }
            if str_eq_chars(host, &self.domains[i]) {
                return true;
            }
            i = i + 1;
        }
        false
    }
}

/// Membership of `h` in an optional override set: absent sets match
/// nothing.
pub open spec fn in_override(o: Option<Seq<Seq<char>>>, h: Seq<char>) -> bool {
    match o {
        Some(s) => s.contains(h),
        None => false,
    }
}

/// The dictionary and the override registry, consulted independently for
/// every query.  Constructed once at startup, then only read; `register`
/// is the one write path and each slot accepts a single registration for
/// the store's lifetime.
pub struct CategoryStore {
    dict: Dictionary,
    bad: Option<OverrideSet>,
    ads: Option<OverrideSet>,
    tracking: Option<OverrideSet>,
    gambling: Option<OverrideSet>,
    networking: Option<OverrideSet>,
}

impl CategoryStore {
    /// The model of the store's dictionary.
    pub closed spec fn dict_model(self) -> Seq<(Seq<char>, u8)> {
        self.dict@
    }

    /// The model of one override slot: `None` until registered.
    pub closed spec fn override_model(self, t: OverrideTag) -> Option<Seq<Seq<char>>> {
        match t {
            OverrideTag::Bad => match self.bad {
                Some(s) => Some(s@),
                None => None,
            },
            OverrideTag::Ads => match self.ads {
                Some(s) => Some(s@),
                None => None,
            },
            OverrideTag::Tracking => match self.tracking {
                Some(s) => Some(s@),
                None => None,
            },
            OverrideTag::Gambling => match self.gambling {
                Some(s) => Some(s@),
                None => None,
            },
            OverrideTag::Networking => match self.networking {
                Some(s) => Some(s@),
                None => None,
            },
        }
    }

    /// The walk-up category mask the dictionary gives `h`.
    pub open spec fn spec_category_mask(self, h: Seq<char>) -> u8 {
        walk_mask(self.dict_model(), h)
    }

    /// A host has category `c` iff the walk finds `c`'s bit, or the exact
    /// host was registered in `c`'s override slot.
    pub open spec fn spec_has_category(self, h: Seq<char>, c: Category) -> bool {
        self.spec_category_mask(h) & spec_bit(c) != 0 || in_override(
            self.override_model(tag_for_category(c)),
            h,
        )
    }

    /// A host is bad in the widest sense: the walk finds it under any
    /// category, or the exact host is in any registered override slot.
    pub open spec fn spec_any_bad(self, h: Seq<char>) -> bool {
        self.spec_category_mask(h) != 0 || in_override(self.override_model(OverrideTag::Bad), h)
            || in_override(self.override_model(OverrideTag::Ads), h) || in_override(
            self.override_model(OverrideTag::Tracking),
            h,
        ) || in_override(self.override_model(OverrideTag::Gambling), h) || in_override(
            self.override_model(OverrideTag::Networking),
            h,
        )
    }

    /// A fresh store over `dict` with no overrides registered.
    pub fn new(dict: Dictionary) -> (s: CategoryStore)
        ensures
            s.dict_model() == dict@,
            forall|u: OverrideTag| s.override_model(u) is None,
    {
        CategoryStore { dict, bad: None, ads: None, tracking: None, gambling: None, networking: None }
    }

    /// Registers an exact-match domain set under the slot `tag` selects.
    /// The first registration of a slot stores the set; every later one
    /// fails with `RegistrationConflict` and leaves the whole store, in
    /// particular the first registration's contents, unchanged.
    pub fn register(&mut self, tag: &str, domains: Vec<String>) -> (r: Result<
        (),
        RegistrationConflict,
    >)
        ensures
            final(self).dict_model() == old(self).dict_model(),
            old(self).override_model(spec_tag_of(tag@)) is Some ==> r is Err,
            old(self).override_model(spec_tag_of(tag@)) is Some ==> forall|u: OverrideTag|
                final(self).override_model(u) == old(self).override_model(u),
            old(self).override_model(spec_tag_of(tag@)) is None ==> r is Ok,
            old(self).override_model(spec_tag_of(tag@)) is None ==> final(self).override_model(
                spec_tag_of(tag@),
            ) == Some(strings_model(domains@)),
            old(self).override_model(spec_tag_of(tag@)) is None ==> forall|u: OverrideTag|
                u != spec_tag_of(tag@) ==> final(self).override_model(u) == old(
                    self,
                ).override_model(u),
    {
        let t = tag_of_label(tag);
        match t {
            OverrideTag::Bad => {
                if self.bad.is_some() {
                    return Err(RegistrationConflict);
                }
                self.bad = Some(OverrideSet::from_strings(domains));
            },
            OverrideTag::Ads => {
                if self.ads.is_some() {
                    return Err(RegistrationConflict);
                }
                self.ads = Some(OverrideSet::from_strings(domains));
            },
            OverrideTag::Tracking => {
                if self.tracking.is_some() {
                    return Err(RegistrationConflict);
                }
                self.tracking = Some(OverrideSet::from_strings(domains));
            },
            OverrideTag::Gambling => {
                if self.gambling.is_some() {
                    return Err(RegistrationConflict);
                }
                self.gambling = Some(OverrideSet::from_strings(domains));
            },
            OverrideTag::Networking => {
                if self.networking.is_some() {
                    return Err(RegistrationConflict);
                }
                self.networking = Some(OverrideSet::from_strings(domains));
            },
        }
        Ok(())
    }

    /// Whether the host is in the custom override set of `t`, when one was
    /// registered.
    fn is_website_in_custom_set(&self, host: &str, t: OverrideTag) -> (r: bool)
        ensures
            r == in_override(self.override_model(t), host@),
    {
        let slot = match t {
            OverrideTag::Bad => &self.bad,
            OverrideTag::Ads => &self.ads,
            OverrideTag::Tracking => &self.tracking,
            OverrideTag::Gambling => &self.gambling,
            OverrideTag::Networking => &self.networking,
        };
        match slot {
            Some(s) => s.contains_host(host),
            None => false,
        }
    }

    /// The walk-up category mask of `host`.
    pub fn category_mask_for(&self, host: &str) -> (m: u8)
        ensures
            m == self.spec_category_mask(host@),
    {
        self.dict.walk(host)
    }

    /// Whether `host` has category `category`, through the dictionary walk
    /// or the category's override slot.
    pub fn has_category(&self, host: &str, category: Category) -> (r: bool)
        ensures
            r == self.spec_has_category(host@, category),
    {
        let m = self.dict.walk(host);
        let b = category.bit();
        if m & b != 0 {
            true
        } else {
            self.is_website_in_custom_set(host, category_tag(category))
        }
    }

    /// The host is in the bad list.
    pub fn is_bad_website_url(&self, host: &str) -> (r: bool)
        ensures
            r == self.spec_has_category(host@, Category::Bad),
    {
        self.has_category(host, Category::Bad)
    }

    /// The host is in the ads list.
    pub fn is_ad_website_url(&self, host: &str) -> (r: bool)
        ensures
            r == self.spec_has_category(host@, Category::Ads),
    {
        self.has_category(host, Category::Ads)
    }

    /// The host is in the tracking list.
    pub fn is_tracking_website_url(&self, host: &str) -> (r: bool)
        ensures
            r == self.spec_has_category(host@, Category::Tracking),
    {
        self.has_category(host, Category::Tracking)
    }

    /// The host is in the gambling list.
    pub fn is_gambling_website_url(&self, host: &str) -> (r: bool)
        ensures
            r == self.spec_has_category(host@, Category::Gambling),
    {
        self.has_category(host, Category::Gambling)
    }

    /// General networking blocking: the host counts as bad, or it is in
    /// the networking override slot built by the caller.
    pub fn is_networking_url(&self, host: &str) -> (r: bool)
        ensures
            r == (self.spec_has_category(host@, Category::Bad) || in_override(
                self.override_model(OverrideTag::Networking),
                host@,
            )),
    {
        self.is_bad_website_url(host) || self.is_website_in_custom_set(
            host,
            OverrideTag::Networking,
        )
    }

    /// The host is found under any category or any override slot.
    pub fn is_url_bad(&self, host: &str) -> (r: bool)
        ensures
            r == self.spec_any_bad(host@),
    {
        let m = self.dict.walk(host);
        m != 0 || self.is_website_in_custom_set(host, OverrideTag::Bad)
            || self.is_website_in_custom_set(host, OverrideTag::Ads)
            || self.is_website_in_custom_set(host, OverrideTag::Tracking)
            || self.is_website_in_custom_set(host, OverrideTag::Gambling)
            || self.is_website_in_custom_set(host, OverrideTag::Networking)
    }

    /// The URL is in the bad list after removing the scheme and path.
    pub fn is_bad_website_url_clean(&self, url: &str) -> (r: bool)
        ensures
            r == self.spec_has_category(host_of(url@), Category::Bad),
    {
        if let Some(host) = get_host_from_url(url) {
            self.is_bad_website_url(host)
        } else {
            false
        }
    }

    /// The URL is in the ads list after removing the scheme and path.
    pub fn is_ad_website_url_clean(&self, url: &str) -> (r: bool)
        ensures
            r == self.spec_has_category(host_of(url@), Category::Ads),
    {
        if let Some(host) = get_host_from_url(url) {
            self.is_ad_website_url(host)
        } else {
            false
        }
    }

    /// The URL is in the tracking list after removing the scheme and path.
    pub fn is_tracking_website_url_clean(&self, url: &str) -> (r: bool)
        ensures
            r == self.spec_has_category(host_of(url@), Category::Tracking),
    {
        if let Some(host) = get_host_from_url(url) {
            self.is_tracking_website_url(host)
        } else {
            false
        }
    }

    /// The URL is in the networking list after removing the scheme and
    /// path.
    pub fn is_networking_website_url_clean(&self, url: &str) -> (r: bool)
        ensures
            r == (self.spec_has_category(host_of(url@), Category::Bad) || in_override(
                self.override_model(OverrideTag::Networking),
                host_of(url@),
            )),
    {
        if let Some(host) = get_host_from_url(url) {
            self.is_networking_url(host)
        } else {
            false
        }
    }

    /// The URL is in the gambling list after removing the scheme and path.
    pub fn is_gambling_website_url_clean(&self, url: &str) -> (r: bool)
        ensures
            r == self.spec_has_category(host_of(url@), Category::Gambling),
    {
        if let Some(host) = get_host_from_url(url) {
            self.is_gambling_website_url(host)
        } else {
            false
        }
    }

    /// The URL is found under any category or override slot after removing
    /// the scheme and path.
    pub fn is_url_bad_clean(&self, url: &str) -> (r: bool)
        ensures
            r == self.spec_any_bad(host_of(url@)),
    {
        if let Some(host) = get_host_from_url(url) {
            self.is_url_bad(host)
        } else {
            false
        }
    }
}

/// Law: inheritance holds regardless of pruning.  When the store's
/// dictionary maps a dotted domain `d` to a mask carrying category `c`,
/// every host formed by prefixing a single dot-free label (such as
/// `"sub." + d`) satisfies `has_category` for `c`.  (A dotless `d` is
/// excluded: the walk never queries a bare parent label.)
pub proof fn lemma_subdomain_has_category(
    s: CategoryStore,
    lab: Seq<char>,
    d: Seq<char>,
    c: Category,
)
    requires
        lab.len() > 0,
        forall|i: int| 0 <= i < lab.len() ==> lab[i] != '.',
        crate::dict::has_dot(d),
        crate::dict::mask_of(s.dict_model(), d) & spec_bit(c) != 0,
    ensures
        s.spec_has_category(lab + seq!['.'] + d, c),
{
    crate::dict::lemma_subdomain_inherits(s.dict_model(), lab, d, c);
}

/// Law: `category_mask_for` is monotonic under suffix-stripping.  The
/// categories the walk finds for a host cover everything it finds when the
/// walk starts from the host's dotted parent instead.
pub proof fn lemma_category_mask_monotonic(s: CategoryStore, h: Seq<char>)
    requires
        crate::dict::has_dot(h),
        crate::dict::has_dot(crate::dict::parent_host(h)),
    ensures
        s.spec_category_mask(h) & s.spec_category_mask(crate::dict::parent_host(h))
            == s.spec_category_mask(crate::dict::parent_host(h)),
{
    crate::dict::lemma_walk_monotonic(s.dict_model(), h);
}

} // verus!
