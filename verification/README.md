# fire_scraper

Scrapes web pages into rich-text fragments for an editor: without `html`, `head` or `body`
around them, and without `div`. Paragraphs, headings, tables, lists, images and strong text
get their styles inline, wherever their tags are found in the text. Images that could be
fetched stand in the fragment as `data:` addresses.

- `src/` is the library, verified with Verus. It decides what to fetch, reads what came,
  and builds the fragments and the answers.
- `app/` is the web service: it listens on port 3000, fetches pages and images, and turns
  requests and answers into JSON.
- `tests/` runs the library.

`POST /scrape` with `{"url": ".."}` gives one page, `POST /scrape-all` all the chapters in
the sidebar of a page, `GET /health` tells that the service is up.
