# politebot_core

The analysis engine behind polite_bot: it scores a web scraper's source for
politeness (a declared `User-Agent`, rate limiting between requests), suggests
a one-click `User-Agent` fix for Python `requests` and JavaScript `fetch`
calls, and answers robots.txt queries with `User-agent` grouping and
longest-match `Allow`/`Disallow` precedence.

The library under `src/` is written in Verus and verified: every public
function carries a contract over a mathematical model of its input and
output, and the properties the tool promises are stated and proved as proof
functions.

- `src/text.rs`: lines, substring search, ASCII case, whitespace, decimals.
- `src/json.rs`: JSON string literals.
- `src/json_value.rs`: JSON values, a reader for JSON texts, and the proof
  that both reports read back as the objects they describe.
- `src/analyzer.rs`: the verdict and findings for scraper source.
- `src/fixer.rs`: the User-Agent fix and its diff.
- `src/robots.rs`: the robots.txt parser and queries.
- `app/`: the WebAssembly bindings, and the `f32` view of `Crawl-delay`.

## Sample

For this loop:

```python
import requests

for url in urls:
    requests.get(url)
```

`score_scraper` reports `red` with two findings on line 4 (no `User-Agent`,
no rate limiting), and `suggest_fix` at line 4 declares the header
dictionary once, above the loop that encloses the call, and passes it to the
call:

```python
import requests

headers = {"User-Agent": "polite-bot/1.0 (+https://github.com/ctkrug/polite-bot)"}
for url in urls:
    requests.get(url, headers=headers)
```

with the diff

```
@@ -3,2 +3,3 @@
+headers = {"User-Agent": "polite-bot/1.0 (+https://github.com/ctkrug/polite-bot)"}
 for url in urls:
-    requests.get(url)
+    requests.get(url, headers=headers)
```

A call that no loop encloses gets the header line just above it, indented
like the call.
