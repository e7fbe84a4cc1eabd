use ruvyxa::site_discovery::{
    resolve_site_url, robots_txt, OneOrManyRules, OneOrManyStrings, RobotsGenerationOptions,
    RobotsRuleOptions,
};

fn no_env(_: &str) -> Option<String> {
    None
}

#[test]
fn site_url_prefers_config_and_uses_production_host_fallbacks() {
    assert_eq!(
        resolve_site_url(Some("HTTPS://Ruvyxa.dev/"), |_| Some("https://env".to_string())),
        Ok(Some("https://ruvyxa.dev".to_string()))
    );
    assert_eq!(
        resolve_site_url(Some("Ruvyxa.dev"), no_env),
        Ok(Some("https://ruvyxa.dev".to_string()))
    );
    assert_eq!(
        resolve_site_url(None, |name| if name == "VERCEL_PROJECT_PRODUCTION_URL" {
            Some("demo.ruvyxa.dev".to_string())
        } else {
            None
        }),
        Ok(Some("https://demo.ruvyxa.dev".to_string()))
    );
    assert_eq!(
        resolve_site_url(None, |name| match name {
            "NETLIFY" => Some("true".to_string()),
            "URL" => Some("https://ruvyxa.netlify.app".to_string()),
            _ => None,
        }),
        Ok(Some("https://ruvyxa.netlify.app".to_string()))
    );
    assert_eq!(resolve_site_url(None, no_env), Ok(None));
}

#[test]
fn site_url_rejects_non_origin_and_credential_values() {
    for value in [
        "ftp://ruvyxa.dev",
        "https://ruvyxa.dev/docs",
        "https://user@ruvyxa.dev",
        "https://ruvyxa.dev?preview=1",
        "https://ruvyxa.dev///",
        "https://",
    ] {
        assert!(resolve_site_url(Some(value), no_env).is_err(), "{value}");
    }
    assert_eq!(
        resolve_site_url(Some("http://[::1]:3000"), no_env),
        Ok(Some("http://[::1]:3000".to_string()))
    );
}

#[test]
fn robots_supports_next_style_rules_multiple_sitemaps_and_host() {
    let options = RobotsGenerationOptions {
        rules: Some(OneOrManyRules::One(RobotsRuleOptions {
            user_agent: Some(OneOrManyStrings::Many(vec![
                "Googlebot".to_string(),
                "Bingbot".to_string(),
            ])),
            allow: Some(OneOrManyStrings::One("/".to_string())),
            disallow: Some(OneOrManyStrings::Many(vec![
                "/private/".to_string(),
                "/drafts/*".to_string(),
            ])),
            crawl_delay: Some(5),
        })),
        sitemap: Some(OneOrManyStrings::Many(vec![
            "https://ruvyxa.dev/sitemap.xml".to_string(),
            "https://ruvyxa.dev/news-sitemap.xml".to_string(),
        ])),
        host: Some("ruvyxa.dev".to_string()),
    };
    let text = robots_txt(None, Some(&options)).unwrap();
    assert!(text.contains("User-agent: Googlebot\nAllow: /\nDisallow: /private/"));
    assert!(text.contains("User-agent: Bingbot"));
    assert_eq!(text.matches("Sitemap:").count(), 2);
    assert!(text.contains("Host: https://ruvyxa.dev"));
}

#[test]
fn robots_rejects_line_injection_and_invalid_paths() {
    let invalid_agent = RobotsGenerationOptions {
        rules: Some(OneOrManyRules::One(RobotsRuleOptions {
            user_agent: Some(OneOrManyStrings::One("Bot\nDisallow: /".to_string())),
            ..RobotsRuleOptions::default()
        })),
        ..RobotsGenerationOptions::default()
    };
    assert!(robots_txt(None, Some(&invalid_agent)).is_err());

    let invalid_path = RobotsGenerationOptions {
        rules: Some(OneOrManyRules::One(RobotsRuleOptions {
            disallow: Some(OneOrManyStrings::One("private".to_string())),
            ..RobotsRuleOptions::default()
        })),
        ..RobotsGenerationOptions::default()
    };
    assert!(robots_txt(None, Some(&invalid_path)).is_err());
}

#[test]
fn robots_without_options_allows_everything() {
    assert_eq!(robots_txt(None, None).unwrap(), "User-agent: *\nAllow: /\n");
    assert_eq!(
        robots_txt(Some("https://ruvyxa.dev"), None).unwrap(),
        "User-agent: *\nAllow: /\n\nSitemap: https://ruvyxa.dev/sitemap.xml\n"
    );
}

#[test]
fn a_preview_deployment_url_is_never_the_site_url() {
    let preview = |name: &str| match name {
        "VERCEL_ENV" => Some("preview".to_string()),
        "VERCEL_URL" => Some("ruvyxa-git-branch.vercel.app".to_string()),
        "URL" => Some("https://deploy-preview-1.netlify.app".to_string()),
        _ => None,
    };
    assert_eq!(resolve_site_url(None, preview), Ok(None));
    assert_eq!(resolve_site_url(Some("   "), preview), Ok(None));
}

#[test]
fn a_resolved_origin_resolves_to_itself() {
    for value in ["HTTPS://Ruvyxa.dev:0443/", "example.COM", "http://Sub.Example.org:8080"] {
        let origin = resolve_site_url(Some(value), no_env).unwrap().unwrap();
        assert_eq!(resolve_site_url(Some(&origin), no_env), Ok(Some(origin.clone())));
    }
    assert_eq!(
        resolve_site_url(Some("HTTPS://Ruvyxa.dev:0443/"), no_env),
        Ok(Some("https://ruvyxa.dev:443".to_string()))
    );
}
