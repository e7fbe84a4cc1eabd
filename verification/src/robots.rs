//! What a generated `robots.txt` holds for each configured rule.

use vstd::prelude::*;

use crate::site_discovery::{
    opt_path_lines, path_lines,
    agent_block, agent_blocks, all_blocks, join, robots_rules, robots_text, rule_agents, rule_blocks,
    robots_sitemaps, site_origin, sitemap_lines, RobotsView, RuleView,
};
use crate::text::{
    decimal, ends_with, holds_text, lemma_holds_itself, lemma_holds_left, lemma_holds_right,
    lemma_holds_trans, starts_with,
};

verus! {

proof fn lemma_join_holds(parts: Seq<Seq<char>>, sep: Seq<char>, k: int)
    requires
        0 <= k < parts.len(),
    ensures
        holds_text(join(parts, sep), parts[k]),
    decreases parts.len(),
{
    if parts.len() == 1 {
        lemma_holds_itself(parts[0]);
    } else if k == parts.len() - 1 {
        lemma_holds_itself(parts.last());
        lemma_holds_right(join(parts.drop_last(), sep) + sep, parts.last(), parts[k]);
    } else {
        lemma_join_holds(parts.drop_last(), sep, k);
        assert(parts.drop_last()[k] == parts[k]);
        lemma_holds_left(join(parts.drop_last(), sep), sep, parts[k]);
        lemma_holds_left(join(parts.drop_last(), sep) + sep, parts.last(), parts[k]);
    }
}

proof fn lemma_join_starts(parts: Seq<Seq<char>>, sep: Seq<char>)
    requires
        parts.len() > 0,
    ensures
        starts_with(join(parts, sep), parts[0]),
    decreases parts.len(),
{
    if parts.len() == 1 {
        assert(parts[0].subrange(0, parts[0].len() as int) =~= parts[0]);
    } else {
        lemma_join_starts(parts.drop_last(), sep);
        let j = join(parts.drop_last(), sep);
        assert((j + sep + parts.last()).subrange(0, parts[0].len() as int) =~= j.subrange(
            0,
            parts[0].len() as int,
        ));
    }
}

proof fn lemma_agent_blocks(rule: RuleView, agents: Seq<Seq<char>>, n: nat)
    requires
        n <= agents.len(),
        agent_blocks(rule, agents, n) is Ok,
    ensures
        agent_blocks(rule, agents, n)->Ok_0.len() == n,
        forall|k: int|
            0 <= k < n ==> agent_block(rule, #[trigger] agents[k]) == Ok::<Seq<char>, Seq<char>>(
                agent_blocks(rule, agents, n)->Ok_0[k],
            ),
    decreases n,
{
    if n > 0 {
        lemma_agent_blocks(rule, agents, (n - 1) as nat);
    }
}

proof fn lemma_all_blocks(rules: Seq<RuleView>, n: nat, r: int, k: int)
    requires
        n <= rules.len(),
        all_blocks(rules, n) is Ok,
        0 <= r < n,
    ensures
        rule_blocks(rules[r]) is Ok,
        0 <= k < rule_blocks(rules[r])->Ok_0.len() ==> all_blocks(rules, n)->Ok_0.contains(
            rule_blocks(rules[r])->Ok_0[k],
        ),
    decreases n,
{
    let before = all_blocks(rules, (n - 1) as nat)->Ok_0;
    let more = rule_blocks(rules[n - 1])->Ok_0;
    if r < n - 1 {
        lemma_all_blocks(rules, (n - 1) as nat, r, k);
        if 0 <= k < rule_blocks(rules[r])->Ok_0.len() {
            let i = choose|i: int| 0 <= i < before.len() && before[i] == rule_blocks(rules[r])->Ok_0[k];
            assert((before + more)[i] == before[i]);
        }
    } else if 0 <= k < more.len() {
        assert((before + more)[before.len() + k] == more[k]);
    }
}

proof fn lemma_path_lines(directive: Seq<char>, values: Seq<Seq<char>>)
    requires
        path_lines(directive, values) is Ok,
    ensures
        path_lines(directive, values)->Ok_0.len() == values.len(),
        forall|k: int|
            0 <= k < values.len() ==> path_lines(directive, values)->Ok_0[k] == directive + ": "@ + #[trigger] values[k],
    decreases values.len(),
{
    if values.len() > 0 {
        lemma_path_lines(directive, values.drop_last());
        assert forall|k: int| 0 <= k < values.len() implies path_lines(directive, values)->Ok_0[k] == directive
            + ": "@ + #[trigger] values[k] by {
            if k < values.len() - 1 {
                assert(values.drop_last()[k] == values[k]);
            }
        }
    }
}

/// Every `Allow` and `Disallow` value of a rule is written, on a line of its
/// own, into the block of each of the rule's user agents.
pub proof fn law_every_path_value_is_written_in_each_agent_block(rule: RuleView, agent: Seq<char>, k: int)
    requires
        agent_block(rule, agent) is Ok,
    ensures
        rule.allow is Some && 0 <= k < rule.allow->Some_0.len() ==> holds_text(
            agent_block(rule, agent)->Ok_0,
            "Allow"@ + ": "@ + rule.allow->Some_0[k],
        ),
        rule.disallow is Some && 0 <= k < rule.disallow->Some_0.len() ==> holds_text(
            agent_block(rule, agent)->Ok_0,
            "Disallow"@ + ": "@ + rule.disallow->Some_0[k],
        ),
{
    let allow = opt_path_lines("Allow"@, rule.allow)->Ok_0;
    let disallow = opt_path_lines("Disallow"@, rule.disallow)->Ok_0;
    let delay = match rule.crawl_delay {
        Some(d) => seq!["Crawl-delay: "@ + decimal(d as nat)],
        None => Seq::<Seq<char>>::empty(),
    };
    let lines = seq!["User-agent: "@ + agent] + allow + disallow + delay;
    assert(agent_block(rule, agent)->Ok_0 == join(lines, "\n"@));
    if rule.allow is Some && 0 <= k < rule.allow->Some_0.len() {
        lemma_path_lines("Allow"@, rule.allow->Some_0);
        assert(lines[1 + k] == allow[k]);
        lemma_join_holds(lines, "\n"@, 1 + k);
    }
    if rule.disallow is Some && 0 <= k < rule.disallow->Some_0.len() {
        lemma_path_lines("Disallow"@, rule.disallow->Some_0);
        assert(lines[1 + allow.len() + k] == disallow[k]);
        lemma_join_holds(lines, "\n"@, 1 + allow.len() + k);
    }
}

/// Each user agent of each rule of a generated `robots.txt` gets its own
/// block, which starts with its `User-agent` line and, where the rule sets a
/// crawl delay, ends with its `Crawl-delay` line; so the text holds the
/// delay of every rule that sets one.
#[verifier::rlimit(60)]
pub proof fn law_every_agent_block_is_written_with_its_crawl_delay(
    automatic: Option<Seq<char>>,
    options: Option<RobotsView>,
    r: int,
    a: int,
)
    requires
        robots_text(automatic, options) is Ok,
        0 <= r < robots_rules(options).len(),
        0 <= a < rule_agents(robots_rules(options)[r]).len(),
    ensures
        ({
            let rule = robots_rules(options)[r];
            let agent = rule_agents(rule)[a];
            let text = robots_text(automatic, options)->Ok_0;
            &&& agent_block(rule, agent) is Ok
            &&& holds_text(text, agent_block(rule, agent)->Ok_0)
            &&& starts_with(agent_block(rule, agent)->Ok_0, "User-agent: "@ + agent)
            &&& rule.crawl_delay matches Some(d) ==> ends_with(
                agent_block(rule, agent)->Ok_0,
                "\n"@ + "Crawl-delay: "@ + decimal(d as nat),
            ) && holds_text(text, "Crawl-delay: "@ + decimal(d as nat))
        }),
{
    let rules = robots_rules(options);
    let rule = rules[r];
    let agents = rule_agents(rule);
    let agent = agents[a];
    lemma_all_blocks(rules, rules.len(), r, a);
    lemma_agent_blocks(rule, agents, agents.len());
    let bs = rule_blocks(rule)->Ok_0;
    let all = all_blocks(rules, rules.len())->Ok_0;
    let block = bs[a];
    assert(agent_block(rule, agent) == Ok::<Seq<char>, Seq<char>>(block));
    let i = choose|i: int| 0 <= i < all.len() && all[i] == block;
    lemma_join_holds(all, "\n\n"@, i);
    let text = robots_text(automatic, options)->Ok_0;
    let joined = join(all, "\n\n"@);
    let head = joined + "\n"@;
    lemma_holds_left(joined, "\n"@, block);
    // The text is the joined blocks and a newline, then maybe the sitemaps
    // and the host.
    let urls = crate::site_discovery::robots_sitemaps(automatic, options)->Ok_0;
    let t1 = if urls.len() > 0 {
        head + "\n"@ + crate::site_discovery::sitemap_lines(urls)
    } else {
        head
    };
    let host = match options {
        Some(o) => o.host,
        None => None,
    };
    if urls.len() > 0 {
        lemma_holds_left(head, "\n"@ + crate::site_discovery::sitemap_lines(urls), block);
        assert(head + "\n"@ + crate::site_discovery::sitemap_lines(urls) =~= head + ("\n"@
            + crate::site_discovery::sitemap_lines(urls)));
    }
    assert(holds_text(t1, block));
    if host is Some {
        let o = crate::site_discovery::site_origin(host->Some_0)->Ok_0;
        assert(text == t1 + "Host: "@ + o + "\n"@);
        assert(t1 + "Host: "@ + o + "\n"@ =~= t1 + ("Host: "@ + o + "\n"@));
        lemma_holds_left(t1, "Host: "@ + o + "\n"@, block);
    } else {
        assert(text == t1);
    }
    assert(holds_text(text, block));
    let allow = crate::site_discovery::opt_path_lines("Allow"@, rule.allow)->Ok_0;
    let disallow = crate::site_discovery::opt_path_lines("Disallow"@, rule.disallow)->Ok_0;
    let delay = match rule.crawl_delay {
        Some(d) => seq!["Crawl-delay: "@ + decimal(d as nat)],
        None => Seq::<Seq<char>>::empty(),
    };
    let lines = seq!["User-agent: "@ + agent] + allow + disallow + delay;
    assert(block == join(lines, "\n"@));
    assert(lines[0] == "User-agent: "@ + agent);
    lemma_join_starts(lines, "\n"@);
    if rule.crawl_delay is Some {
        let d = rule.crawl_delay->Some_0;
        let line = "Crawl-delay: "@ + decimal(d as nat);
        assert(lines.len() >= 2);
        assert(lines.last() == line);
        let front = join(lines.drop_last(), "\n"@);
        assert(block == front + "\n"@ + line);
        assert(block.subrange(block.len() - ("\n"@ + line).len(), block.len() as int) =~= "\n"@ + line);
        assert("\n"@ + line =~= "\n"@ + "Crawl-delay: "@ + decimal(d as nat));
        assert(holds_text(block, line)) by {
            assert(block.subrange(block.len() - line.len(), block.len() as int) =~= line);
            assert(0 <= block.len() - line.len() <= block.len() <= block.len());
        }
        lemma_holds_trans(text, block, line);
    }
}

proof fn lemma_sitemap_lines_hold(urls: Seq<Seq<char>>, k: int)
    requires
        0 <= k < urls.len(),
    ensures
        holds_text(sitemap_lines(urls), "Sitemap: "@ + urls[k] + "\n"@),
    decreases urls.len(),
{
    let line = "Sitemap: "@ + urls[k] + "\n"@;
    let before = sitemap_lines(urls.drop_last());
    let last = "Sitemap: "@ + urls.last() + "\n"@;
    assert(sitemap_lines(urls) =~= before + last);
    if k == urls.len() - 1 {
        assert(last =~= line);
        lemma_holds_itself(line);
        lemma_holds_right(before, last, line);
    } else {
        lemma_sitemap_lines_hold(urls.drop_last(), k);
        assert(urls.drop_last()[k] == urls[k]);
        lemma_holds_left(before, last, line);
    }
}

/// A generated `robots.txt` names every sitemap, each on a `Sitemap:` line of
/// its own, and ends with the `Host:` line of the configured host, written
/// as its normalized origin.
pub proof fn law_robots_names_every_sitemap_and_ends_with_the_host(
    automatic: Option<Seq<char>>,
    options: Option<RobotsView>,
    k: int,
)
    requires
        robots_text(automatic, options) is Ok,
    ensures
        robots_sitemaps(automatic, options) is Ok,
        0 <= k < robots_sitemaps(automatic, options)->Ok_0.len() ==> holds_text(
            robots_text(automatic, options)->Ok_0,
            "Sitemap: "@ + robots_sitemaps(automatic, options)->Ok_0[k] + "\n"@,
        ),
        (options matches Some(o) && o.host is Some) ==> site_origin(options->Some_0.host->Some_0) is Ok
            && ends_with(
            robots_text(automatic, options)->Ok_0,
            "Host: "@ + site_origin(options->Some_0.host->Some_0)->Ok_0 + "\n"@,
        ),
{
    let rules = robots_rules(options);
    let all = all_blocks(rules, rules.len())->Ok_0;
    let head = join(all, "\n\n"@) + "\n"@;
    let urls = robots_sitemaps(automatic, options)->Ok_0;
    let t1 = if urls.len() > 0 {
        head + "\n"@ + sitemap_lines(urls)
    } else {
        head
    };
    let text = robots_text(automatic, options)->Ok_0;
    let host = match options {
        Some(o) => o.host,
        None => None,
    };
    if 0 <= k < urls.len() {
        let line = "Sitemap: "@ + urls[k] + "\n"@;
        lemma_sitemap_lines_hold(urls, k);
        lemma_holds_right(head + "\n"@, sitemap_lines(urls), line);
        if host is Some {
            let o = site_origin(host->Some_0)->Ok_0;
            assert(text == t1 + "Host: "@ + o + "\n"@);
            assert(t1 + "Host: "@ + o + "\n"@ =~= t1 + ("Host: "@ + o + "\n"@));
            lemma_holds_left(t1, "Host: "@ + o + "\n"@, line);
        } else {
            assert(text == t1);
        }
    }
    if host is Some {
        let o = site_origin(host->Some_0)->Ok_0;
        let last = "Host: "@ + o + "\n"@;
        assert(text == t1 + "Host: "@ + o + "\n"@);
        assert(text =~= t1 + last);
        assert(text.subrange(text.len() - last.len(), text.len() as int) =~= last);
    }
}

} // verus!
