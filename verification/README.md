# ruvyxa

The verified core of the Ruvyxa web framework's tooling, written in Verus.

`src/` holds the logic of the CLI, the bundler's source scans and the dev
server: module scanning and server/client boundaries, configuration
validation and server settings, sitemap and robots generation, static asset
rules, strong ETags and the fingerprint index, the image cache and pipeline,
security headers, terminal layout, and the commit of a staged build. Every
function there carries a contract, and the laws that relate several calls
(what a cache gives back of what was stored, that a failed build commit
leaves the previous build in place, that disabling the security headers
removes exactly what enabling adds) are proof functions named `law_*`.

Calls into outside crates (`blake3`, `chrono`, `image`,
`fast_image_resize`, `axum`'s `http`) go through small trusted wrappers whose
contracts say what the crates' sources show.

`app/` is the part that talks to the machine: files, processes, the terminal,
HTTP responses and the WebP encoder. It reads what the library needs, hands
it over as plain values and carries out the answers.

`tests/` exercises the library on concrete values.
